//! Laws of indices: which fragments an index covers after a commit.

use vstd::prelude::*;
use crate::error::ErrorModel;
use crate::format::FragmentModel;
use crate::format::IndexModel;
use crate::ids::Uuid;
use crate::indices::covers_any;
use crate::indices::index_at;
use crate::indices::lemma_index_at;
use crate::indices::rewrite_all_bitmaps;
use crate::indices::rewrite_bitmap;
use crate::indices::rewrite_indices;
use crate::indices::short_ids;
use crate::operation::RewriteGroupModel;
use crate::operation::RewrittenIndex;

verus! {

// Bitmaps.

/// Whether one of some fragments has an id, as bitmaps hold ids.
pub open spec fn among(fragments: Seq<FragmentModel>, id: u32) -> bool {
    exists|i: int| 0 <= i < fragments.len() && (#[trigger] fragments[i]).id as u32 == id
}

/// Whether a bitmap holds an old fragment of a group.
pub open spec fn touches(ids: Set<u32>, group: RewriteGroupModel) -> bool {
    exists|id: u32| #[trigger] ids.contains(id) && among(group.old_fragments, id)
}

/// Whether a bitmap holds all old fragments of a group.
pub open spec fn spans(ids: Set<u32>, group: RewriteGroupModel) -> bool {
    forall|id: u32| #[trigger] among(group.old_fragments, id) ==> ids.contains(id)
}

/// Whether a bitmap is what another becomes when groups are rewritten. Of a group that it
/// held, it holds the new fragments, unless a later group that it held replaces them; what
/// no group that it held replaces stays; nothing else is held.
pub open spec fn follows(before: Set<u32>, after: Set<u32>, groups: Seq<RewriteGroupModel>) -> bool {
    forall|id: u32| #[trigger]
        after.contains(id) <==> is_held(before, before.contains(id), groups, id)
}

/// Whether a fragment is held after groups were rewritten.
pub open spec fn is_held(
    before: Set<u32>,
    now: bool,
    groups: Seq<RewriteGroupModel>,
    id: u32,
) -> bool {
    ||| exists|g: int|
        {
            &&& 0 <= g < groups.len()
            &&& touches(before, #[trigger] groups[g])
            &&& among(groups[g].new_fragments, id)
            &&& forall|h: int|
                g < h < groups.len() && touches(before, #[trigger] groups[h]) ==> !among(
                    groups[h].old_fragments,
                    id,
                ) || among(groups[h].new_fragments, id)
        }
    ||| now && forall|g: int|
        0 <= g < groups.len() && touches(before, #[trigger] groups[g]) ==> !among(
            groups[g].old_fragments,
            id,
        )
}

/// The ids of fragments as a set.
pub proof fn lemma_among(fragments: Seq<FragmentModel>, id: u32)
    ensures
        among(fragments, id) <==> short_ids(fragments).to_set().contains(id),
{
    let ids = short_ids(fragments);
    if among(fragments, id) {
        let i = choose|i: int|
            0 <= i < fragments.len() && (#[trigger] fragments[i]).id as u32 == id;
        assert(ids[i] == id);
        assert(ids.contains(id));
    }
    if ids.to_set().contains(id) {
        let i = choose|i: int| 0 <= i < ids.len() && ids[i] == id;
        assert(fragments[i].id as u32 == id);
    }
}

proof fn lemma_touches(ids: Set<u32>, group: RewriteGroupModel)
    ensures
        touches(ids, group) <==> covers_any(ids, group.old_fragments),
        spans(ids, group) <==> crate::indices::covers_all(ids, group.old_fragments),
{
    let old = group.old_fragments;
    if covers_any(ids, old) {
        let i = choose|i: int| 0 <= i < old.len() && ids.contains((#[trigger] old[i]).id as u32);
        assert(among(old, old[i].id as u32));
    }
    if touches(ids, group) {
        let id = choose|id: u32| #[trigger] ids.contains(id) && among(old, id);
        let i = choose|i: int| 0 <= i < old.len() && (#[trigger] old[i]).id as u32 == id;
        assert(ids.contains(old[i].id as u32));
    }
    if spans(ids, group) {
        assert forall|i: int| 0 <= i < old.len() implies ids.contains(
            (#[trigger] old[i]).id as u32,
        ) by {
            assert(among(old, old[i].id as u32));
        }
    }
}

#[verifier::spinoff_prover]
#[verifier::rlimit(60)]
proof fn lemma_held(before: Set<u32>, now: Set<u32>, groups: Seq<RewriteGroupModel>, id: u32)
    requires
        rewrite_bitmap(before, now, groups) is Ok,
    ensures
        rewrite_bitmap(before, now, groups)->Ok_0.contains(id) <==> is_held(
            before,
            now.contains(id),
            groups,
            id,
        ),
    decreases groups.len(),
{
    if groups.len() > 0 {
        let group = groups[0];
        let rest = groups.drop_first();
        lemma_touches(before, group);
        lemma_among(group.old_fragments, id);
        lemma_among(group.new_fragments, id);
        let after = if touches(before, group) {
            now.difference(short_ids(group.old_fragments).to_set()).union(
                short_ids(group.new_fragments).to_set(),
            )
        } else {
            now
        };
        lemma_held(before, after, rest, id);
        assert(forall|g: int| 0 <= g < rest.len() ==> (#[trigger] rest[g]) == groups[g + 1]);
        let held = is_held(before, after.contains(id), rest, id);
        let whole = is_held(before, now.contains(id), groups, id);
        let put = |s: Seq<RewriteGroupModel>, g: int|
            {
                &&& 0 <= g < s.len()
                &&& touches(before, s[g])
                &&& among(s[g].new_fragments, id)
                &&& forall|h: int|
                    g < h < s.len() && touches(before, #[trigger] s[h]) ==> !among(
                        s[h].old_fragments,
                        id,
                    ) || among(s[h].new_fragments, id)
            };
        if held {
            if exists|g: int| 0 <= g < rest.len() && put(rest, g) && #[trigger] rest[g] == rest[g] {
                let g = choose|g: int|
                    0 <= g < rest.len() && put(rest, g) && #[trigger] rest[g] == rest[g];
                assert(touches(before, groups[g + 1]));
                assert forall|h: int|
                    g + 1 < h < groups.len() && touches(before, #[trigger] groups[h]) implies !among(
                    groups[h].old_fragments,
                    id,
                ) || among(groups[h].new_fragments, id) by {
                    assert(rest[h - 1] == groups[h]);
                }
                assert(whole);
            } else {
                assert(after.contains(id));
                assert forall|h: int|
                    0 < h < groups.len() && touches(before, #[trigger] groups[h]) implies !among(
                    groups[h].old_fragments,
                    id,
                ) by {
                    assert(rest[h - 1] == groups[h]);
                }
                if touches(before, group) && among(group.new_fragments, id) {
                    assert(touches(before, groups[0]));
                    assert(whole);
                } else {
                    assert(whole);
                }
            }
        }
        if whole {
            if exists|g: int|
                0 <= g < groups.len() && put(groups, g) && #[trigger] groups[g] == groups[g] {
                let g = choose|g: int|
                    0 <= g < groups.len() && put(groups, g) && #[trigger] groups[g] == groups[g];
                if g > 0 {
                    assert(touches(before, rest[g - 1]));
                    assert forall|h: int|
                        g - 1 < h < rest.len() && touches(
                            before,
                            #[trigger] rest[h],
                        ) implies !among(rest[h].old_fragments, id) || among(
                        rest[h].new_fragments,
                        id,
                    ) by {
                        assert(rest[h] == groups[h + 1]);
                    }
                    assert(held);
                } else {
                    assert(after.contains(id));
                    lemma_last_put(before, rest, id);
                    assert forall|h: int|
                        0 <= h < rest.len() && touches(
                            before,
                            #[trigger] rest[h],
                        ) implies !among(rest[h].old_fragments, id) || among(
                        rest[h].new_fragments,
                        id,
                    ) by {
                        assert(rest[h] == groups[h + 1]);
                    }
                    assert(held);
                }
            } else {
                assert(now.contains(id));
                assert(touches(before, groups[0]) ==> !among(groups[0].old_fragments, id));
                assert(after.contains(id));
                assert forall|h: int|
                    0 <= h < rest.len() && touches(before, #[trigger] rest[h]) implies !among(
                    rest[h].old_fragments,
                    id,
                ) by {
                    assert(rest[h] == groups[h + 1]);
                }
                assert(held);
            }
        }
    }
}

/// Where every group that takes a fragment out puts it in again, it is held to the end.
proof fn lemma_last_put(before: Set<u32>, groups: Seq<RewriteGroupModel>, id: u32)
    ensures
        (forall|h: int|
            0 <= h < groups.len() && touches(before, #[trigger] groups[h]) ==> !among(
                groups[h].old_fragments,
                id,
            ) || among(groups[h].new_fragments, id)) ==> is_held(before, true, groups, id),
{
    if forall|h: int|
        0 <= h < groups.len() && touches(before, #[trigger] groups[h]) ==> !among(
            groups[h].old_fragments,
            id,
        ) || among(groups[h].new_fragments, id) {
        if exists|g: int|
            0 <= g < groups.len() && touches(before, #[trigger] groups[g]) && among(
                groups[g].old_fragments,
                id,
            ) {
            let g = choose|g: int|
                0 <= g < groups.len() && touches(before, #[trigger] groups[g]) && among(
                    groups[g].old_fragments,
                    id,
                );
            assert(among(groups[g].new_fragments, id));
        }
    }
}

/// Rewriting a bitmap fails exactly if it holds a part of a group, and otherwise the result
/// follows the groups: of each group that it held it holds the new fragments, none of the
/// old ones that are not also new, and everything else as before.
pub proof fn bitmap_is_recalculated(before: Set<u32>, groups: Seq<RewriteGroupModel>)
    ensures
        rewrite_bitmap(before, before, groups) is Ok <==> forall|g: int|
            0 <= g < groups.len() && touches(before, #[trigger] groups[g]) ==> spans(
                before,
                groups[g],
            ),
        match rewrite_bitmap(before, before, groups) {
            Ok(after) => follows(before, after, groups),
            Err(e) => e == (ErrorModel::InvalidInput {
                source:
                    "The compaction plan included a rewrite group that was a split of indexed and non-indexed data"@,
            }),
        },
{
    lemma_splits(before, before, groups);
    if rewrite_bitmap(before, before, groups) is Ok {
        let after = rewrite_bitmap(before, before, groups)->Ok_0;
        assert forall|id: u32| #[trigger] after.contains(id) <==> is_held(
            before,
            before.contains(id),
            groups,
            id,
        ) by {
            lemma_held(before, before, groups, id);
        }
    }
}

#[verifier::spinoff_prover]
#[verifier::rlimit(60)]
proof fn lemma_splits(before: Set<u32>, now: Set<u32>, groups: Seq<RewriteGroupModel>)
    ensures
        rewrite_bitmap(before, now, groups) is Ok <==> forall|g: int|
            0 <= g < groups.len() && touches(before, #[trigger] groups[g]) ==> spans(
                before,
                groups[g],
            ),
        rewrite_bitmap(before, now, groups) is Err ==> rewrite_bitmap(before, now, groups)->Err_0
            == (ErrorModel::InvalidInput {
            source:
                "The compaction plan included a rewrite group that was a split of indexed and non-indexed data"@,
        }),
    decreases groups.len(),
{
    if groups.len() > 0 {
        let group = groups[0];
        let rest = groups.drop_first();
        lemma_touches(before, group);
        let after = if touches(before, group) {
            now.difference(short_ids(group.old_fragments).to_set()).union(
                short_ids(group.new_fragments).to_set(),
            )
        } else {
            now
        };
        lemma_splits(before, after, rest);
        assert(forall|g: int| 0 <= g < rest.len() ==> (#[trigger] rest[g]) == groups[g + 1]);
        if rewrite_bitmap(before, now, groups) is Ok {
            assert forall|g: int|
                0 <= g < groups.len() && touches(before, #[trigger] groups[g]) implies spans(
                before,
                groups[g],
            ) by {
                if g > 0 {
                    assert(rest[g - 1] == groups[g]);
                }
            }
        } else if touches(before, group) && !spans(before, group) {
            assert(touches(before, groups[0]) && !spans(before, groups[0]));
        } else {
            let g = choose|g: int|
                0 <= g < rest.len() && touches(before, #[trigger] rest[g]) && !spans(
                    before,
                    rest[g],
                );
            assert(touches(before, groups[g + 1]) && !spans(before, groups[g + 1]));
        }
    }
}

/// An index that held all of a group holds the new fragments of it afterwards and none of
/// the old ones that are not also new, where no other group that it held has them.
pub proof fn held_group_stays_held(
    before: Set<u32>,
    after: Set<u32>,
    groups: Seq<RewriteGroupModel>,
    g: int,
    id: u32,
)
    requires
        follows(before, after, groups),
        0 <= g < groups.len(),
        touches(before, groups[g]),
        forall|h: int|
            0 <= h < groups.len() && h != g ==> !among((#[trigger] groups[h]).old_fragments, id)
                && !among(groups[h].new_fragments, id),
    ensures
        among(groups[g].new_fragments, id) ==> after.contains(id),
        among(groups[g].old_fragments, id) && !among(groups[g].new_fragments, id)
            ==> !after.contains(id),
{
}

// Rewriting indices.

/// Whether an index is the first one of its id.
pub open spec fn is_first_index(indices: Seq<IndexModel>, i: int) -> bool {
    &&& 0 <= i < indices.len()
    &&& forall|j: int| 0 <= j < i ==> (#[trigger] indices[j]).uuid != indices[i].uuid
}

/// Whether one index is another after it was rewritten: it has the new id, its bitmap
/// follows the groups, and everything else is as it was.
pub open spec fn is_rewritten_index(
    before: IndexModel,
    after: IndexModel,
    new_id: Uuid,
    groups: Seq<RewriteGroupModel>,
) -> bool {
    &&& before.fragment_bitmap is Some
    &&& after.fragment_bitmap is Some
    &&& follows(before.fragment_bitmap->0, after.fragment_bitmap->0, groups)
    &&& after == (IndexModel {
        uuid: new_id,
        fragment_bitmap: after.fragment_bitmap,
        ..before
    })
}

/// Whether no index is rewritten by the id that an earlier one got.
pub open spec fn no_chains(rewritten: Seq<RewrittenIndex>) -> bool {
    forall|j: int, k: int|
        0 <= j < k < rewritten.len() ==> (#[trigger] rewritten[j]).new_id != (
        #[trigger] rewritten[k]).old_id
}

#[verifier::spinoff_prover]
#[verifier::rlimit(60)]
proof fn lemma_rewriting(
    indices: Seq<IndexModel>,
    rewritten: Seq<RewrittenIndex>,
    k: int,
    groups: Seq<RewriteGroupModel>,
    i: int,
)
    requires
        0 <= k <= rewritten.len(),
        no_chains(rewritten),
        0 <= i < indices.len(),
        rewrite_indices(indices, rewritten, k, groups).1 is None,
    ensures
        ({
            let out = rewrite_indices(indices, rewritten, k, groups).0;
            &&& out.len() == indices.len()
            &&& (forall|e: int|
                k <= e < rewritten.len() ==> (#[trigger] rewritten[e]).old_id != indices[i].uuid)
                ==> out[i] == indices[i]
            &&& forall|e: int|
                k <= e < rewritten.len() && (#[trigger] rewritten[e]).old_id == indices[i].uuid && (
                forall|j: int| 0 <= j < i ==> (#[trigger] indices[j]).uuid != indices[i].uuid)
                    ==> is_rewritten_index(indices[i], out[i], rewritten[e].new_id, groups)
        }),
    decreases rewritten.len() - k,
{
    if k < rewritten.len() {
        let id = rewritten[k].old_id;
        lemma_index_at(indices, id);
        let at = index_at(indices, id)->0;
        let b = indices[at].fragment_bitmap->0;
        let c = rewrite_bitmap(b, b, groups)->Ok_0;
        let new = IndexModel {
            fragment_bitmap: Some(c),
            uuid: rewritten[k].new_id,
            ..indices[at]
        };
        let next = indices.update(at, new);
        bitmap_is_recalculated(b, groups);
        lemma_rewriting(next, rewritten, k + 1, groups, i);
        let out = rewrite_indices(indices, rewritten, k, groups).0;
        assert(out == rewrite_indices(next, rewritten, k + 1, groups).0);
        if i == at {
            assert(forall|e: int|
                k + 1 <= e < rewritten.len() ==> (#[trigger] rewritten[e]).old_id
                    != rewritten[k].new_id);
            assert(out[i] == new);
            assert forall|e: int|
                k <= e < rewritten.len() && (#[trigger] rewritten[e]).old_id
                    == indices[i].uuid implies e == k by {
                if e > k {
                    lemma_once(indices, rewritten, k, groups, e);
                }
            }
        } else {
            assert(next[i] == indices[i]);
            assert forall|e: int|
                k <= e < rewritten.len() && (#[trigger] rewritten[e]).old_id == indices[i].uuid && (
                forall|j: int|
                    0 <= j < i ==> (#[trigger] indices[j]).uuid
                        != indices[i].uuid) implies is_rewritten_index(
                indices[i],
                out[i],
                rewritten[e].new_id,
                groups,
            ) by {
                if e == k {
                    assert(at < i || at > i);
                    assert(indices[at].uuid == indices[i].uuid);
                } else {
                    assert forall|j: int| 0 <= j < i implies (#[trigger] next[j]).uuid
                        != next[i].uuid by {
                        if j == at {
                            assert(rewritten[k].new_id != rewritten[e].old_id);
                        } else {
                            assert(next[j] == indices[j]);
                        }
                    }
                }
            }
        }
    }
}

/// No index is rewritten twice.
proof fn lemma_once(
    indices: Seq<IndexModel>,
    rewritten: Seq<RewrittenIndex>,
    k: int,
    groups: Seq<RewriteGroupModel>,
    e: int,
)
    requires
        0 <= k <= e < rewritten.len(),
        rewrite_indices(indices, rewritten, k, groups).1 is None,
    ensures
        forall|j: int| 0 <= j < e ==> (#[trigger] rewritten[j]).old_id != rewritten[e].old_id,
    decreases e - k,
{
    if e > k {
        let id = rewritten[k].old_id;
        let at = index_at(indices, id)->0;
        let b = indices[at].fragment_bitmap->0;
        let c = rewrite_bitmap(b, b, groups)->Ok_0;
        lemma_once(
            indices.update(
                at,
                IndexModel { fragment_bitmap: Some(c), uuid: rewritten[k].new_id, ..indices[at] },
            ),
            rewritten,
            k + 1,
            groups,
            e,
        );
    }
}

/// After indices were rewritten, each index that is named has its new id and covers, of the
/// groups that it covered, the new fragments in place of the old ones; all else of it, and
/// every other index, is as it was. This is where no entry names an id that an earlier one
/// gave; of indices with one id the first one is named.
#[verifier::spinoff_prover]
#[verifier::rlimit(60)]
pub proof fn rewritten_indices_cover_new_fragments(
    indices: Seq<IndexModel>,
    rewritten: Seq<RewrittenIndex>,
    groups: Seq<RewriteGroupModel>,
)
    requires
        no_chains(rewritten),
        rewrite_indices(indices, rewritten, 0, groups).1 is None,
    ensures
        ({
            let out = rewrite_indices(indices, rewritten, 0, groups).0;
            &&& out.len() == indices.len()
            &&& forall|e: int|
                0 <= e < rewritten.len() ==> exists|i: int|
                    is_first_index(indices, i) && indices[i].uuid == (
                    #[trigger] rewritten[e]).old_id
            &&& forall|i: int, e: int|
                is_first_index(indices, i) && 0 <= e < rewritten.len() && (
                #[trigger] rewritten[e]).old_id == (#[trigger] indices[i]).uuid
                    ==> is_rewritten_index(indices[i], out[i], rewritten[e].new_id, groups)
            &&& forall|i: int|
                0 <= i < indices.len() && (forall|e: int|
                    0 <= e < rewritten.len() ==> (#[trigger] rewritten[e]).old_id
                        != indices[i].uuid) ==> #[trigger] out[i] == indices[i]
        }),
{
    let out = rewrite_indices(indices, rewritten, 0, groups).0;
    if indices.len() > 0 {
        lemma_rewriting(indices, rewritten, 0, groups, 0);
    } else {
        lemma_rewriting_len(indices, rewritten, 0, groups);
    }
    assert forall|e: int| 0 <= e < rewritten.len() implies exists|i: int|
        is_first_index(indices, i) && indices[i].uuid == (#[trigger] rewritten[e]).old_id by {
        lemma_named(indices, rewritten, 0, groups, e);
        lemma_index_at(indices, rewritten[e].old_id);
        let i = index_at(indices, rewritten[e].old_id)->0;
        assert(is_first_index(indices, i));
    }
    assert forall|i: int, e: int|
        is_first_index(indices, i) && 0 <= e < rewritten.len() && (#[trigger] rewritten[e]).old_id
            == (#[trigger] indices[i]).uuid implies is_rewritten_index(
        indices[i],
        out[i],
        rewritten[e].new_id,
        groups,
    ) by {
        lemma_rewriting(indices, rewritten, 0, groups, i);
    }
    assert forall|i: int|
        0 <= i < indices.len() && (forall|e: int|
            0 <= e < rewritten.len() ==> (#[trigger] rewritten[e]).old_id
                != indices[i].uuid) implies #[trigger] out[i] == indices[i] by {
        lemma_rewriting(indices, rewritten, 0, groups, i);
    }
}

/// Rewriting indices neither adds nor drops any.
pub proof fn lemma_rewriting_len(
    indices: Seq<IndexModel>,
    rewritten: Seq<RewrittenIndex>,
    k: int,
    groups: Seq<RewriteGroupModel>,
)
    ensures
        rewrite_indices(indices, rewritten, k, groups).0.len() == indices.len(),
    decreases rewritten.len() - k,
{
    if 0 <= k < rewritten.len() && !(exists|j: int|
        0 <= j < k && (#[trigger] rewritten[j]).old_id == rewritten[k].old_id) {
        lemma_index_at(indices, rewritten[k].old_id);
        match index_at(indices, rewritten[k].old_id) {
            Some(at) => match indices[at].fragment_bitmap {
                Some(b) => match rewrite_bitmap(b, b, groups) {
                    Ok(c) => {
                        lemma_rewriting_len(
                            indices.update(
                                at,
                                IndexModel {
                                    fragment_bitmap: Some(c),
                                    uuid: rewritten[k].new_id,
                                    ..indices[at]
                                },
                            ),
                            rewritten,
                            k + 1,
                            groups,
                        );
                    },
                    Err(_) => {},
                },
                None => {},
            },
            None => {},
        }
    }
}

proof fn lemma_named(
    indices: Seq<IndexModel>,
    rewritten: Seq<RewrittenIndex>,
    k: int,
    groups: Seq<RewriteGroupModel>,
    e: int,
)
    requires
        0 <= k <= e < rewritten.len(),
        no_chains(rewritten),
        rewrite_indices(indices, rewritten, k, groups).1 is None,
    ensures
        index_at(indices, rewritten[e].old_id) is Some,
    decreases e - k,
{
    if e > k {
        let id = rewritten[k].old_id;
        lemma_index_at(indices, id);
        let at = index_at(indices, id)->0;
        let b = indices[at].fragment_bitmap->0;
        let c = rewrite_bitmap(b, b, groups)->Ok_0;
        let next = indices.update(
            at,
            IndexModel { fragment_bitmap: Some(c), uuid: rewritten[k].new_id, ..indices[at] },
        );
        lemma_named(next, rewritten, k + 1, groups, e);
        lemma_index_at(next, rewritten[e].old_id);
        let i = index_at(next, rewritten[e].old_id)->0;
        assert(i != at) by {
            assert(rewritten[k].new_id != rewritten[e].old_id);
        }
        assert(indices[i].uuid == rewritten[e].old_id);
        lemma_index_at(indices, rewritten[e].old_id);
    }
}

/// Where row ids are stable, a rewrite leaves every index in its place; the bitmap of each
/// that has one follows the groups, and all else is as it was.
pub proof fn all_bitmaps_follow(indices: Seq<IndexModel>, groups: Seq<RewriteGroupModel>)
    requires
        rewrite_all_bitmaps(indices, groups) is Ok,
    ensures
        ({
            let out = rewrite_all_bitmaps(indices, groups)->Ok_0;
            &&& out.len() == indices.len()
            &&& forall|i: int|
                0 <= i < indices.len() ==> match (#[trigger] indices[i]).fragment_bitmap {
                    Some(_) => is_rewritten_index(indices[i], out[i], indices[i].uuid, groups),
                    None => out[i] == indices[i],
                }
        }),
    decreases indices.len(),
{
    if indices.len() > 0 {
        let rest = indices.drop_first();
        let out = rewrite_all_bitmaps(indices, groups)->Ok_0;
        let tail = rewrite_all_bitmaps(rest, groups)->Ok_0;
        all_bitmaps_follow(rest, groups);
        match indices[0].fragment_bitmap {
            Some(b) => {
                bitmap_is_recalculated(b, groups);
            },
            None => {},
        }
        assert forall|i: int|
            0 <= i < indices.len() implies match (#[trigger] indices[i]).fragment_bitmap {
            Some(_) => is_rewritten_index(indices[i], out[i], indices[i].uuid, groups),
            None => out[i] == indices[i],
        } by {
            if i > 0 {
                assert(rest[i - 1] == indices[i]);
                assert(out[i] == tail[i - 1]);
            }
        }
    }
}

} // verus!
