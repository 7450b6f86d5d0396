//! Laws of rewrites: which fragments and indices a table has after a compaction.

use vstd::prelude::*;
use crate::commit_laws::is_rewritten;
use crate::commit_laws::lemma_group_keeps;
use crate::commit_laws::lemma_without_ids;
use crate::commit_laws::numbering_fragments;
use crate::commit_laws::rewriting_keeps_others;
use crate::format::FragmentModel;
use crate::format::IndexModel;
use crate::fragments::can_rewrite;
use crate::fragments::fragment_ids;
use crate::fragments::lemma_position_of;
use crate::fragments::number_fragments;
use crate::fragments::position_of;
use crate::fragments::rewrite_group;
use crate::fragments::rewrite_groups;
use crate::fragments::stands_at;
use crate::fragments::unnumbered;
use crate::fragments::without_ids;
use crate::index_laws::all_bitmaps_follow;
use crate::index_laws::bitmap_is_recalculated;
use crate::index_laws::is_first_index;
use crate::index_laws::is_rewritten_index;
use crate::index_laws::no_chains;
use crate::index_laws::rewritten_indices_cover_new_fragments;
use crate::index_laws::spans;
use crate::index_laws::touches;
use crate::indices::index_at;
use crate::indices::lemma_index_at;
use crate::indices::rewrite_all_bitmaps;
use crate::indices::rewrite_bitmap;
use crate::indices::rewrite_indices;
use crate::manifest::ManifestModel;
use crate::operation::RewriteGroupModel;
use crate::operation::RewrittenIndex;
use crate::plan_laws::free_row;
use crate::plan_laws::is_first_free;
use crate::plan_laws::keeps_row_ids;
use crate::plan_laws::lemma_counted;
use crate::plan_laws::lemma_first_free;
use crate::plan_laws::lemma_ordered;
use crate::plan_laws::lemma_remaining;
use crate::plan_laws::remaining_indices;
use crate::plan_laws::without_id_before;
use crate::planning::can_plan;
use crate::planning::next_fragment_id;
use crate::planning::plan;
use crate::transaction::TransactionModel;

verus! {

/// How many new fragments of the first `n` groups have no id.
pub open spec fn without_id_in(groups: Seq<RewriteGroupModel>, n: int) -> int
    decreases n,
{
    if n <= 0 {
        0
    } else {
        without_id_in(groups, n - 1) + without_id_before(
            groups[n - 1].new_fragments,
            groups[n - 1].new_fragments.len() as int,
        )
    }
}

/// The id that a new fragment of a group gets: its own, or the next free one.
pub open spec fn id_after(groups: Seq<RewriteGroupModel>, first: int, k: int, i: int) -> int {
    if groups[k].new_fragments[i].id == 0 {
        first + without_id_in(groups, k) + without_id_before(groups[k].new_fragments, i)
    } else {
        groups[k].new_fragments[i].id as int
    }
}

/// Whether a fragment is one of the new fragments of groups, with the id that it gets.
pub open spec fn is_new(
    f: FragmentModel,
    groups: Seq<RewriteGroupModel>,
    first: int,
    k: int,
    i: int,
) -> bool {
    &&& 0 <= k < groups.len()
    &&& 0 <= i < groups[k].new_fragments.len()
    &&& f.id == id_after(groups, first, k, i)
    &&& f == (FragmentModel { id: f.id, ..groups[k].new_fragments[i] })
}

/// Whether a group from position `k` on replaces a fragment id.
pub open spec fn replaced_from(groups: Seq<RewriteGroupModel>, k: int, id: int) -> bool {
    exists|g: int, i: int|
        {
            &&& k <= g < groups.len()
            &&& 0 <= i < groups[g].old_fragments.len()
            &&& (#[trigger] groups[g].old_fragments[i]).id == id
        }
}

proof fn lemma_replaced_from(groups: Seq<RewriteGroupModel>, id: u64)
    ensures
        replaced_from(groups, 0, id as int) <==> is_rewritten(groups, id),
{
    if replaced_from(groups, 0, id as int) {
        let (g, i) = choose|g: int, i: int|
            {
                &&& 0 <= g < groups.len()
                &&& 0 <= i < groups[g].old_fragments.len()
                &&& (#[trigger] groups[g].old_fragments[i]).id == id
            };
        assert(fragment_ids(groups[g].old_fragments)[i] == id);
        assert(fragment_ids(groups[g].old_fragments).contains(id));
    }
    if is_rewritten(groups, id) {
        let g = choose|g: int|
            0 <= g < groups.len() && fragment_ids((#[trigger] groups[g]).old_fragments).contains(
                id,
            );
        let ids = fragment_ids(groups[g].old_fragments);
        let i = choose|i: int| 0 <= i < ids.len() && ids[i] == id;
        assert(groups[g].old_fragments[i].id == id);
    }
}

proof fn lemma_rest_of_groups(groups: Seq<RewriteGroupModel>, n: int)
    requires
        0 < n <= groups.len(),
    ensures
        without_id_in(groups, n) == without_id_before(
            groups[0].new_fragments,
            groups[0].new_fragments.len() as int,
        ) + without_id_in(groups.drop_first(), n - 1),
    decreases n,
{
    if n > 1 {
        lemma_rest_of_groups(groups, n - 1);
        assert(groups.drop_first()[n - 2] == groups[n - 1]);
    } else {
        assert(without_id_in(groups, 0) == 0);
        assert(without_id_in(groups.drop_first(), 0) == 0);
    }
}

proof fn lemma_all_counted(fragments: Seq<FragmentModel>)
    ensures
        unnumbered(fragments) == without_id_before(fragments, fragments.len() as int),
{
    lemma_counted(fragments, fragments.len() as int);
    assert(fragments.take(fragments.len() as int) =~= fragments);
}

proof fn lemma_group_new(group: RewriteGroupModel, next: int, i: int)
    requires
        0 <= next,
        next + unnumbered(group.new_fragments) <= u64::MAX,
        0 <= i < group.new_fragments.len(),
    ensures
        ({
            let new = number_fragments(group.new_fragments, next);
            &&& new.len() == group.new_fragments.len()
            &&& new[i] == (FragmentModel { id: new[i].id, ..group.new_fragments[i] })
            &&& new[i].id == (if group.new_fragments[i].id == 0 {
                next + without_id_before(group.new_fragments, i)
            } else {
                group.new_fragments[i].id as int
            })
        }),
{
    numbering_fragments(group.new_fragments, next, i);
    lemma_counted(group.new_fragments, i);
}

proof fn lemma_group_has_new(
    fragments: Seq<FragmentModel>,
    start: int,
    group: RewriteGroupModel,
    next: int,
    i: int,
)
    requires
        0 <= start < fragments.len(),
        0 <= i < number_fragments(group.new_fragments, next).len(),
    ensures
        rewrite_group(fragments, start, group, next).contains(
            number_fragments(group.new_fragments, next)[i],
        ),
{
    let new = number_fragments(group.new_fragments, next);
    let out = rewrite_group(fragments, start, group, next);
    if stands_at(fragments, start, group.old_fragments) {
        assert(out[start + i] == new[i]);
    } else {
        let kept = without_ids(fragments, fragment_ids(group.old_fragments));
        assert(out[kept.len() + i] == new[i]);
    }
}

proof fn lemma_group_has_only(
    fragments: Seq<FragmentModel>,
    start: int,
    group: RewriteGroupModel,
    next: int,
    f: FragmentModel,
)
    requires
        0 <= start < fragments.len(),
        rewrite_group(fragments, start, group, next).contains(f),
    ensures
        fragments.contains(f) || number_fragments(group.new_fragments, next).contains(f),
{
    let new = number_fragments(group.new_fragments, next);
    let old = group.old_fragments;
    let out = rewrite_group(fragments, start, group, next);
    let i = choose|i: int| 0 <= i < out.len() && out[i] == f;
    if stands_at(fragments, start, old) {
        if i < start {
            assert(fragments[i] == f);
        } else if i < start + new.len() {
            assert(new[i - start] == f);
        } else {
            assert(fragments[i - new.len() + old.len()] == f);
        }
    } else {
        let ids = fragment_ids(old);
        let kept = without_ids(fragments, ids);
        if i < kept.len() {
            assert(kept.contains(f));
            lemma_without_ids(fragments, ids, f);
        } else {
            assert(new[i - kept.len()] == f);
        }
    }
}

/// What groups put in is there afterwards, unless a later group takes it out.
#[verifier::spinoff_prover]
#[verifier::rlimit(60)]
proof fn lemma_puts_in(
    fragments: Seq<FragmentModel>,
    groups: Seq<RewriteGroupModel>,
    next: int,
    version: u64,
    k: int,
    i: int,
    f: FragmentModel,
)
    requires
        0 <= next,
        can_rewrite(fragments, groups, next),
        rewrite_groups(fragments, groups, next, version).2 is None,
        is_new(f, groups, next, k, i),
        !replaced_from(groups, k + 1, f.id as int),
    ensures
        rewrite_groups(fragments, groups, next, version).0.contains(f),
    decreases groups.len(),
{
    let rest = groups.drop_first();
    let first = groups[0].old_fragments[0].id;
    lemma_position_of(fragments, first);
    let start = position_of(fragments, first)->0;
    let step = rewrite_group(fragments, start, groups[0], next);
    let after = next + unnumbered(groups[0].new_fragments);
    lemma_all_counted(groups[0].new_fragments);
    if k == 0 {
        lemma_group_new(groups[0], next, i);
        assert(f == number_fragments(groups[0].new_fragments, next)[i]);
        lemma_group_has_new(fragments, start, groups[0], next, i);
        assert(!is_rewritten(rest, f.id)) by {
            lemma_replaced_from(rest, f.id);
            if replaced_from(rest, 0, f.id as int) {
                let (g, j) = choose|g: int, j: int|
                    {
                        &&& 0 <= g < rest.len()
                        &&& 0 <= j < rest[g].old_fragments.len()
                        &&& (#[trigger] rest[g].old_fragments[j]).id == f.id
                    };
                assert(groups[g + 1].old_fragments[j].id == f.id);
            }
        }
        rewriting_keeps_others(step, rest, after, version, f);
    } else {
        lemma_rest_of_groups(groups, k);
        assert(rest[k - 1] == groups[k]);
        assert(is_new(f, rest, after, k - 1, i));
        assert(!replaced_from(rest, k, f.id as int)) by {
            if replaced_from(rest, k, f.id as int) {
                let (g, j) = choose|g: int, j: int|
                    {
                        &&& k <= g < rest.len()
                        &&& 0 <= j < rest[g].old_fragments.len()
                        &&& (#[trigger] rest[g].old_fragments[j]).id == f.id
                    };
                assert(groups[g + 1].old_fragments[j].id == f.id);
            }
        }
        lemma_puts_in(step, rest, after, version, k - 1, i, f);
    }
}

/// Groups put in nothing but their new fragments.
#[verifier::spinoff_prover]
#[verifier::rlimit(60)]
proof fn lemma_puts_in_only(
    fragments: Seq<FragmentModel>,
    groups: Seq<RewriteGroupModel>,
    next: int,
    version: u64,
    f: FragmentModel,
)
    requires
        0 <= next,
        can_rewrite(fragments, groups, next),
        rewrite_groups(fragments, groups, next, version).2 is None,
        rewrite_groups(fragments, groups, next, version).0.contains(f),
    ensures
        fragments.contains(f) || exists|k: int, i: int| #[trigger] is_new(f, groups, next, k, i),
    decreases groups.len(),
{
    if groups.len() > 0 {
        let rest = groups.drop_first();
        let first = groups[0].old_fragments[0].id;
        lemma_position_of(fragments, first);
        let start = position_of(fragments, first)->0;
        let step = rewrite_group(fragments, start, groups[0], next);
        let after = next + unnumbered(groups[0].new_fragments);
        lemma_all_counted(groups[0].new_fragments);
        lemma_puts_in_only(step, rest, after, version, f);
        if step.contains(f) {
            lemma_group_has_only(fragments, start, groups[0], next, f);
            let new = number_fragments(groups[0].new_fragments, next);
            if new.contains(f) {
                let i = choose|i: int| 0 <= i < new.len() && new[i] == f;
                if groups[0].new_fragments.len() > 0 {
                    lemma_group_new(groups[0], next, 0);
                }
                lemma_group_new(groups[0], next, i);
                assert(is_new(f, groups, next, 0, i));
            }
        } else {
            let (k, i) = choose|k: int, i: int| #[trigger] is_new(f, rest, after, k, i);
            assert(rest[k] == groups[k + 1]);
            lemma_rest_of_groups(groups, k + 1);
            assert(is_new(f, groups, next, k + 1, i));
        }
    }
}

/// Whether each new fragment of groups has an id of its own: it is not 0, no other new
/// fragment has it, and no group replaces it.
pub open spec fn have_own_ids(groups: Seq<RewriteGroupModel>) -> bool {
    &&& forall|k: int, i: int|
        0 <= k < groups.len() && 0 <= i < groups[k].new_fragments.len() ==> {
            &&& (#[trigger] groups[k].new_fragments[i]).id != 0
            &&& !replaced_from(groups, 0, groups[k].new_fragments[i].id as int)
        }
    &&& forall|k: int, i: int, l: int, j: int|
        0 <= k < groups.len() && 0 <= i < groups[k].new_fragments.len() && 0 <= l < groups.len()
            && 0 <= j < groups[l].new_fragments.len() && (k != l || i != j) ==> (
        #[trigger] groups[k].new_fragments[i]).id != (#[trigger] groups[l].new_fragments[j]).id
}

/// Whether no fragment has the id of a new fragment of groups.
pub open spec fn are_fresh(fragments: Seq<FragmentModel>, groups: Seq<RewriteGroupModel>) -> bool {
    forall|k: int, i: int, j: int|
        0 <= k < groups.len() && 0 <= i < groups[k].new_fragments.len() && 0 <= j < fragments.len()
            ==> (#[trigger] groups[k].new_fragments[i]).id != (#[trigger] fragments[j]).id
}

/// Whether no two fragments have the same id.
pub open spec fn ids_differ(fragments: Seq<FragmentModel>) -> bool {
    forall|i: int, j: int|
        0 <= i < j < fragments.len() ==> (#[trigger] fragments[i]).id != (
        #[trigger] fragments[j]).id
}

proof fn lemma_without(fragments: Seq<FragmentModel>, ids: Seq<u64>)
    requires
        ids_differ(fragments),
    ensures
        ids_differ(without_ids(fragments, ids)),
        forall|i: int|
            0 <= i < without_ids(fragments, ids).len() ==> fragments.contains(
                #[trigger] without_ids(fragments, ids)[i],
            ) && !ids.contains(without_ids(fragments, ids)[i].id),
    decreases fragments.len(),
{
    if fragments.len() > 0 {
        let rest = fragments.drop_first();
        let out = without_ids(fragments, ids);
        let tail = without_ids(rest, ids);
        assert(forall|i: int| 0 <= i < rest.len() ==> (#[trigger] rest[i]) == fragments[i + 1]);
        assert(ids_differ(rest)) by {
            assert forall|i: int, j: int| 0 <= i < j < rest.len() implies (#[trigger] rest[i]).id
                != (#[trigger] rest[j]).id by {
                assert(fragments[i + 1].id != fragments[j + 1].id);
            }
        }
        lemma_without(rest, ids);
        assert forall|i: int| 0 <= i < tail.len() implies fragments.contains(#[trigger] tail[i])
            && tail[i].id != fragments[0].id && !ids.contains(tail[i].id) by {
            assert(rest.contains(tail[i]));
            let k = choose|k: int| 0 <= k < rest.len() && rest[k] == tail[i];
            assert(fragments[k + 1] == tail[i]);
            assert(fragments[0].id != fragments[k + 1].id);
        }
        if !ids.contains(fragments[0].id) {
            assert(forall|i: int| 0 < i < out.len() ==> (#[trigger] out[i]) == tail[i - 1]);
            assert forall|i: int, j: int| 0 <= i < j < out.len() implies (#[trigger] out[i]).id
                != (#[trigger] out[j]).id by {
                if i == 0 {
                    assert(out[j] == tail[j - 1]);
                } else {
                    assert(tail[i - 1].id != tail[j - 1].id);
                }
            }
            assert forall|i: int| 0 <= i < out.len() implies fragments.contains(#[trigger] out[i])
                && !ids.contains(out[i].id) by {
                if i == 0 {
                    assert(fragments[0] == out[0]);
                } else {
                    assert(out[i] == tail[i - 1]);
                }
            }
        }
    }
}

#[verifier::spinoff_prover]
#[verifier::rlimit(60)]
proof fn lemma_group_step(
    fragments: Seq<FragmentModel>,
    start: int,
    groups: Seq<RewriteGroupModel>,
    next: int,
)
    requires
        groups.len() > 0,
        0 <= next,
        next + unnumbered(groups[0].new_fragments) <= u64::MAX,
        0 <= start < fragments.len(),
        ids_differ(fragments),
        have_own_ids(groups),
        are_fresh(fragments, groups),
    ensures
        ({
            let step = rewrite_group(fragments, start, groups[0], next);
            &&& ids_differ(step)
            &&& are_fresh(step, groups.drop_first())
            &&& have_own_ids(groups.drop_first())
            &&& forall|i: int, j: int|
                0 <= i < step.len() && 0 <= j < groups[0].old_fragments.len() ==> (
                #[trigger] step[i]).id != (#[trigger] groups[0].old_fragments[j]).id
        }),
{
    let group = groups[0];
    let rest = groups.drop_first();
    let old = group.old_fragments;
    let new = number_fragments(group.new_fragments, next);
    let step = rewrite_group(fragments, start, group, next);
    if group.new_fragments.len() > 0 {
        lemma_group_new(group, next, 0);
    }
    assert(forall|k: int| 0 <= k < rest.len() ==> (#[trigger] rest[k]) == groups[k + 1]);
    assert forall|i: int| 0 <= i < new.len() implies (#[trigger] new[i]).id
        == group.new_fragments[i].id by {
        lemma_group_new(group, next, i);
        assert(groups[0].new_fragments[i].id != 0);
    }
    // The part that stays, before and behind the new fragments.
    let front = if stands_at(fragments, start, old) {
        fragments.take(start)
    } else {
        without_ids(fragments, fragment_ids(old))
    };
    let back = if stands_at(fragments, start, old) {
        fragments.skip(start + old.len())
    } else {
        Seq::empty()
    };
    let kept = front + back;
    assert(step =~= front + new + back);
    assert(ids_differ(kept) && forall|i: int|
        0 <= i < kept.len() ==> fragments.contains(#[trigger] kept[i]) && !fragment_ids(
            old,
        ).contains(kept[i].id)) by {
        if stands_at(fragments, start, old) {
            assert forall|i: int| 0 <= i < kept.len() implies fragments.contains(#[trigger] kept[i])
                && !fragment_ids(old).contains(kept[i].id) by {
                let p = if i < start {
                    i
                } else {
                    i + old.len()
                };
                assert(kept[i] == fragments[p]);
                if fragment_ids(old).contains(kept[i].id) {
                    let j = choose|j: int|
                        0 <= j < old.len() && fragment_ids(old)[j] == kept[i].id;
                    assert(fragments[start + j].id == old[j].id);
                    if p < start + j {
                        assert(fragments[p].id != fragments[start + j].id);
                    } else {
                        assert(fragments[start + j].id != fragments[p].id);
                    }
                }
            }
            assert forall|i: int, j: int| 0 <= i < j < kept.len() implies (#[trigger] kept[i]).id
                != (#[trigger] kept[j]).id by {
                let p = if i < start {
                    i
                } else {
                    i + old.len()
                };
                let q = if j < start {
                    j
                } else {
                    j + old.len()
                };
                assert(kept[i] == fragments[p] && kept[j] == fragments[q]);
                assert(fragments[p].id != fragments[q].id);
            }
        } else {
            lemma_without(fragments, fragment_ids(old));
            assert(kept =~= front);
        }
    }
    assert forall|i: int| 0 <= i < step.len() implies {
        ||| exists|j: int| 0 <= j < kept.len() && (#[trigger] kept[j]) == #[trigger] step[i]
        ||| exists|j: int| 0 <= j < new.len() && (#[trigger] new[j]) == step[i]
    } by {
        if i < front.len() {
            assert(kept[i] == step[i]);
        } else if i < front.len() + new.len() {
            assert(new[i - front.len()] == step[i]);
        } else {
            assert(kept[i - new.len()] == step[i]);
        }
    }
    assert forall|i: int, j: int| 0 <= i < kept.len() && 0 <= j < new.len() implies (
    #[trigger] kept[i]).id != (#[trigger] new[j]).id by {
        assert(fragments.contains(kept[i]));
        let p = choose|p: int| 0 <= p < fragments.len() && fragments[p] == kept[i];
        assert(groups[0].new_fragments[j].id != fragments[p].id);
    }
    assert forall|i: int, j: int| 0 <= i < j < step.len() implies (#[trigger] step[i]).id != (
    #[trigger] step[j]).id by {
        let n = front.len();
        let m = new.len();
        if n <= i < n + m && n <= j < n + m {
            assert(step[i] == new[i - n] && step[j] == new[j - n]);
            assert(groups[0].new_fragments[i - n].id != groups[0].new_fragments[j - n].id);
        } else if n <= i < n + m {
            assert(step[i] == new[i - n] && step[j] == kept[j - m]);
        } else if n <= j < n + m {
            assert(step[i] == kept[i] && step[j] == new[j - n]);
        } else {
            let p = if i < n {
                i
            } else {
                i - m
            };
            let q = if j < n {
                j
            } else {
                j - m
            };
            assert(step[i] == kept[p] && step[j] == kept[q]);
        }
    }
    assert forall|i: int, j: int| 0 <= i < step.len() && 0 <= j < old.len() implies (
    #[trigger] step[i]).id != (#[trigger] groups[0].old_fragments[j]).id by {
        assert(fragment_ids(old)[j] == old[j].id);
        assert(fragment_ids(old).contains(old[j].id));
        if exists|k: int| 0 <= k < new.len() && (#[trigger] new[k]) == step[i] {
            let k = choose|k: int| 0 <= k < new.len() && (#[trigger] new[k]) == step[i];
            assert(!replaced_from(groups, 0, groups[0].new_fragments[k].id as int));
            assert(groups[0].old_fragments[j].id != groups[0].new_fragments[k].id);
        }
    }
    assert(are_fresh(step, rest)) by {
        assert forall|k: int, i: int, j: int|
            0 <= k < rest.len() && 0 <= i < rest[k].new_fragments.len() && 0 <= j
                < step.len() implies (#[trigger] rest[k].new_fragments[i]).id != (
        #[trigger] step[j]).id by {
            if exists|m: int| 0 <= m < new.len() && (#[trigger] new[m]) == step[j] {
                let m = choose|m: int| 0 <= m < new.len() && (#[trigger] new[m]) == step[j];
                assert(groups[k + 1].new_fragments[i].id != groups[0].new_fragments[m].id);
            } else {
                let m = choose|m: int| 0 <= m < kept.len() && (#[trigger] kept[m]) == step[j];
                assert(fragments.contains(kept[m]));
                let p = choose|p: int| 0 <= p < fragments.len() && fragments[p] == kept[m];
                assert(groups[k + 1].new_fragments[i].id != fragments[p].id);
            }
        }
    }
    assert(have_own_ids(rest)) by {
        assert forall|k: int, i: int|
            0 <= k < rest.len() && 0 <= i < rest[k].new_fragments.len() implies {
            &&& (#[trigger] rest[k].new_fragments[i]).id != 0
            &&& !replaced_from(rest, 0, rest[k].new_fragments[i].id as int)
        } by {
            let id = groups[k + 1].new_fragments[i].id;
            assert(id != 0 && !replaced_from(groups, 0, id as int));
            if replaced_from(rest, 0, id as int) {
                let (g, j) = choose|g: int, j: int|
                    {
                        &&& 0 <= g < rest.len()
                        &&& 0 <= j < rest[g].old_fragments.len()
                        &&& (#[trigger] rest[g].old_fragments[j]).id == id
                    };
                assert(groups[g + 1].old_fragments[j].id == id);
            }
        }
        assert forall|k: int, i: int, l: int, j: int|
            0 <= k < rest.len() && 0 <= i < rest[k].new_fragments.len() && 0 <= l < rest.len() && 0
                <= j < rest[l].new_fragments.len() && (k != l || i != j) implies (
        #[trigger] rest[k].new_fragments[i]).id != (#[trigger] rest[l].new_fragments[j]).id by {
            assert(groups[k + 1].new_fragments[i].id != groups[l + 1].new_fragments[j].id);
        }
    }
}

#[verifier::spinoff_prover]
#[verifier::rlimit(60)]
proof fn lemma_takes_out(
    fragments: Seq<FragmentModel>,
    groups: Seq<RewriteGroupModel>,
    next: int,
    version: u64,
    id: u64,
)
    requires
        0 <= next,
        can_rewrite(fragments, groups, next),
        rewrite_groups(fragments, groups, next, version).2 is None,
        ids_differ(fragments),
        have_own_ids(groups),
        are_fresh(fragments, groups),
        replaced_from(groups, 0, id as int) || forall|j: int|
            0 <= j < fragments.len() ==> (#[trigger] fragments[j]).id != id,
        forall|k: int, i: int|
            0 <= k < groups.len() && 0 <= i < groups[k].new_fragments.len() ==> (
            #[trigger] groups[k].new_fragments[i]).id != id,
    ensures
        ({
            let out = rewrite_groups(fragments, groups, next, version).0;
            &&& ids_differ(out)
            &&& forall|j: int| 0 <= j < out.len() ==> (#[trigger] out[j]).id != id
        }),
    decreases groups.len(),
{
    if groups.len() > 0 {
        let rest = groups.drop_first();
        let first = groups[0].old_fragments[0].id;
        lemma_position_of(fragments, first);
        let start = position_of(fragments, first)->0;
        let step = rewrite_group(fragments, start, groups[0], next);
        let after = next + unnumbered(groups[0].new_fragments);
        lemma_group_step(fragments, start, groups, next);
        assert(forall|k: int| 0 <= k < rest.len() ==> (#[trigger] rest[k]) == groups[k + 1]);
        assert forall|k: int, i: int|
            0 <= k < rest.len() && 0 <= i < rest[k].new_fragments.len() implies (
        #[trigger] rest[k].new_fragments[i]).id != id by {
            assert(groups[k + 1].new_fragments[i].id != id);
        }
        if !replaced_from(rest, 0, id as int) {
            assert forall|j: int| 0 <= j < step.len() implies (#[trigger] step[j]).id != id by {
                if step[j].id == id {
                    if replaced_from(groups, 0, id as int) {
                        let (g, i) = choose|g: int, i: int|
                            {
                                &&& 0 <= g < groups.len()
                                &&& 0 <= i < groups[g].old_fragments.len()
                                &&& (#[trigger] groups[g].old_fragments[i]).id == id
                            };
                        if g > 0 {
                            assert(rest[g - 1].old_fragments[i].id == id);
                        } else {
                            assert(step[j].id != groups[0].old_fragments[i].id);
                        }
                    } else {
                        assert(step.contains(step[j]));
                        lemma_group_has_only(fragments, start, groups[0], next, step[j]);
                        let new = number_fragments(groups[0].new_fragments, next);
                        if new.contains(step[j]) {
                            let i = choose|i: int| 0 <= i < new.len() && new[i] == step[j];
                            if groups[0].new_fragments.len() > 0 {
                                lemma_group_new(groups[0], next, 0);
                            }
                            lemma_group_new(groups[0], next, i);
                            assert(groups[0].new_fragments[i].id != 0);
                        } else {
                            let i = choose|i: int|
                                0 <= i < fragments.len() && fragments[i] == step[j];
                            assert(fragments[i].id != id);
                        }
                    }
                }
            }
        }
        lemma_takes_out(step, rest, after, version, id);
    }
}

/// A rewrite that can be planned keeps every fragment that no group replaces; puts in every
/// new fragment of every group, with its own id or the next free one, unless a later group
/// replaces that; and puts in nothing else.
#[verifier::spinoff_prover]
#[verifier::rlimit(60)]
pub proof fn rewriting_replaces_groups(
    t: TransactionModel,
    current: ManifestModel,
    indices: Seq<IndexModel>,
    stable_row_ids: bool,
    numbers: Seq<Option<(u32, u32)>>,
)
    requires
        t.operation is Rewrite,
        can_plan(t.operation, Some(current), indices, stable_row_ids, numbers),
        plan(t, Some(current), indices, stable_row_ids, numbers) is Ok,
    ensures
        ({
            let p = plan(t, Some(current), indices, stable_row_ids, numbers)->Ok_0;
            let groups = t.operation->groups;
            &&& p.schema == current.schema
            &&& p.next_row_id == free_row(current)
            &&& forall|f: FragmentModel| #[trigger]
                current.fragments.contains(f) && !replaced_from(groups, 0, f.id as int)
                    ==> p.fragments.contains(f)
            &&& exists|first: int| #[trigger]
                is_first_free(current, first) && {
                    &&& forall|f: FragmentModel, k: int, i: int| #[trigger]
                        is_new(f, groups, first, k, i) && !replaced_from(
                            groups,
                            k + 1,
                            f.id as int,
                        ) ==> p.fragments.contains(f)
                    &&& forall|f: FragmentModel| #[trigger]
                        p.fragments.contains(f) ==> current.fragments.contains(f) || exists|
                            k: int,
                            i: int,
                        | #[trigger]
                            is_new(f, groups, first, k, i)
                }
        }),
{
    let p = plan(t, Some(current), indices, stable_row_ids, numbers)->Ok_0;
    let groups = t.operation->groups;
    let first = next_fragment_id(t.operation, Some(current));
    let out = rewrite_groups(current.fragments, groups, first, current.version).0;
    lemma_first_free(t.operation, current);
    lemma_ordered(out);
    assert forall|f: FragmentModel| #[trigger]
        current.fragments.contains(f) && !replaced_from(
            groups,
            0,
            f.id as int,
        ) implies p.fragments.contains(f) by {
        lemma_replaced_from(groups, f.id);
        rewriting_keeps_others(current.fragments, groups, first, current.version, f);
    }
    assert forall|f: FragmentModel, k: int, i: int| #[trigger]
        is_new(f, groups, first, k, i) && !replaced_from(
            groups,
            k + 1,
            f.id as int,
        ) implies p.fragments.contains(f) by {
        lemma_puts_in(current.fragments, groups, first, current.version, k, i, f);
    }
    assert forall|f: FragmentModel| #[trigger] p.fragments.contains(
        f,
    ) implies current.fragments.contains(f) || exists|k: int, i: int| #[trigger]
        is_new(f, groups, first, k, i) by {
        lemma_puts_in_only(current.fragments, groups, first, current.version, f);
    }
    assert(is_first_free(current, first));
}

/// After a rewrite no fragment has an id that a group replaces, and ids stay distinct, where
/// the fragments of the table have distinct ids and each new fragment has an id of its own.
pub proof fn rewriting_removes_old(
    t: TransactionModel,
    current: ManifestModel,
    indices: Seq<IndexModel>,
    stable_row_ids: bool,
    numbers: Seq<Option<(u32, u32)>>,
    id: u64,
)
    requires
        t.operation is Rewrite,
        can_plan(t.operation, Some(current), indices, stable_row_ids, numbers),
        plan(t, Some(current), indices, stable_row_ids, numbers) is Ok,
        ids_differ(current.fragments),
        have_own_ids(t.operation->groups),
        are_fresh(current.fragments, t.operation->groups),
        replaced_from(t.operation->groups, 0, id as int),
    ensures
        ({
            let p = plan(t, Some(current), indices, stable_row_ids, numbers)->Ok_0;
            forall|j: int| 0 <= j < p.fragments.len() ==> (#[trigger] p.fragments[j]).id != id
        }),
{
    let p = plan(t, Some(current), indices, stable_row_ids, numbers)->Ok_0;
    let groups = t.operation->groups;
    let first = next_fragment_id(t.operation, Some(current));
    let out = rewrite_groups(current.fragments, groups, first, current.version).0;
    lemma_first_free(t.operation, current);
    assert forall|k: int, i: int|
        0 <= k < groups.len() && 0 <= i < groups[k].new_fragments.len() implies (
    #[trigger] groups[k].new_fragments[i]).id != id by {
        assert(!replaced_from(groups, 0, groups[k].new_fragments[i].id as int));
    }
    lemma_takes_out(current.fragments, groups, first, current.version, id);
    lemma_ordered(out);
    assert forall|j: int| 0 <= j < p.fragments.len() implies (#[trigger] p.fragments[j]).id
        != id by {
        assert(p.fragments.contains(p.fragments[j]));
        assert(out.contains(p.fragments[j]));
        let k = choose|k: int| 0 <= k < out.len() && out[k] == p.fragments[j];
        assert(out[k].id != id);
    }
}

/// Whether indices are others after a rewrite, without the index of reused fragments. Where
/// row ids are kept, each stays and its bitmap follows the groups. Otherwise those that were
/// rewritten have their new ids, and their bitmaps follow the groups; the others stay.
pub open spec fn are_carried_over(
    indices: Seq<IndexModel>,
    rewritten: Seq<RewrittenIndex>,
    groups: Seq<RewriteGroupModel>,
    row_ids: bool,
    out: Seq<IndexModel>,
) -> bool {
    &&& out.len() == indices.len()
    &&& row_ids ==> forall|i: int|
        0 <= i < indices.len() ==> match (#[trigger] indices[i]).fragment_bitmap {
            Some(_) => is_rewritten_index(indices[i], out[i], indices[i].uuid, groups),
            None => out[i] == indices[i],
        }
    &&& !row_ids && no_chains(rewritten) ==> {
        &&& forall|i: int, e: int|
            is_first_index(indices, i) && 0 <= e < rewritten.len() && (
            #[trigger] rewritten[e]).old_id == (#[trigger] indices[i]).uuid ==> is_rewritten_index(
                indices[i],
                out[i],
                rewritten[e].new_id,
                groups,
            )
        &&& forall|i: int|
            0 <= i < indices.len() && (forall|e: int|
                0 <= e < rewritten.len() ==> (#[trigger] rewritten[e]).old_id != indices[i].uuid)
                ==> #[trigger] out[i] == indices[i]
    }
}

/// A rewrite carries the indices over: each covers, of the groups that it covered, the new
/// fragments in place of the old ones. An index of reused fragments takes the place of the
/// ones of its name.
pub proof fn rewriting_carries_indices_over(
    t: TransactionModel,
    current: ManifestModel,
    indices: Seq<IndexModel>,
    stable_row_ids: bool,
    numbers: Seq<Option<(u32, u32)>>,
)
    requires
        t.operation is Rewrite,
        plan(t, Some(current), indices, stable_row_ids, numbers) is Ok,
    ensures
        ({
            let p = plan(t, Some(current), indices, stable_row_ids, numbers)->Ok_0;
            exists|out: Seq<IndexModel>|
                {
                    &&& #[trigger] are_carried_over(
                        indices,
                        t.operation->rewritten_indices,
                        t.operation->groups,
                        keeps_row_ids(current),
                        out,
                    )
                    &&& p.indices == (match t.operation->frag_reuse_index {
                        Some(reuse) => remaining_indices(out, seq![reuse], Seq::empty()).push(
                            reuse,
                        ),
                        None => out,
                    })
                }
        }),
{
    let p = plan(t, Some(current), indices, stable_row_ids, numbers)->Ok_0;
    let groups = t.operation->groups;
    let rewritten = t.operation->rewritten_indices;
    let out = if keeps_row_ids(current) {
        crate::indices::rewrite_all_bitmaps(indices, groups)->Ok_0
    } else {
        crate::indices::rewrite_indices(indices, rewritten, 0, groups).0
    };
    if keeps_row_ids(current) {
        all_bitmaps_follow(indices, groups);
    } else {
        crate::index_laws::lemma_rewriting_len(indices, rewritten, 0, groups);
        if no_chains(rewritten) {
            rewritten_indices_cover_new_fragments(indices, rewritten, groups);
        }
    }
    match t.operation->frag_reuse_index {
        Some(reuse) => {
            lemma_remaining(out, seq![reuse], Seq::empty());
        },
        None => {},
    }
    assert(are_carried_over(indices, rewritten, groups, keeps_row_ids(current), out));
}

// Success.

/// Whether no fragment is replaced by two groups.
pub open spec fn are_disjoint(groups: Seq<RewriteGroupModel>) -> bool {
    forall|g: int, i: int, h: int, j: int|
        0 <= g < groups.len() && 0 <= i < groups[g].old_fragments.len() && 0 <= h < groups.len()
            && 0 <= j < groups[h].old_fragments.len() && g != h ==> (
        #[trigger] groups[g].old_fragments[i]).id != (#[trigger] groups[h].old_fragments[j]).id
}

/// Whether the first old fragment of a group is there.
pub open spec fn is_present(fragments: Seq<FragmentModel>, group: RewriteGroupModel) -> bool {
    exists|j: int|
        0 <= j < fragments.len() && (#[trigger] fragments[j]).id == group.old_fragments[0].id
}

#[verifier::spinoff_prover]
#[verifier::rlimit(60)]
proof fn lemma_rewrites(
    fragments: Seq<FragmentModel>,
    groups: Seq<RewriteGroupModel>,
    next: int,
    version: u64,
)
    requires
        can_rewrite(fragments, groups, next),
        are_disjoint(groups),
        forall|k: int|
            0 <= k < groups.len() ==> (#[trigger] groups[k]).old_fragments.len() > 0 && is_present(
                fragments,
                groups[k],
            ),
    ensures
        rewrite_groups(fragments, groups, next, version).2 is None,
    decreases groups.len(),
{
    if groups.len() > 0 {
        let rest = groups.drop_first();
        let first = groups[0].old_fragments[0].id;
        lemma_position_of(fragments, first);
        assert(is_present(fragments, groups[0]));
        let start = position_of(fragments, first)->0;
        let step = rewrite_group(fragments, start, groups[0], next);
        assert(forall|k: int| 0 <= k < rest.len() ==> (#[trigger] rest[k]) == groups[k + 1]);
        assert(are_disjoint(rest)) by {
            assert forall|g: int, i: int, h: int, j: int|
                0 <= g < rest.len() && 0 <= i < rest[g].old_fragments.len() && 0 <= h < rest.len()
                    && 0 <= j < rest[h].old_fragments.len() && g != h implies (
            #[trigger] rest[g].old_fragments[i]).id != (
            #[trigger] rest[h].old_fragments[j]).id by {
                assert(groups[g + 1].old_fragments[i].id != groups[h + 1].old_fragments[j].id);
            }
        }
        assert forall|k: int| 0 <= k < rest.len() implies (#[trigger] rest[k]).old_fragments.len()
            > 0 && is_present(step, rest[k]) by {
            let group = groups[k + 1];
            assert(is_present(fragments, group));
            let j = choose|j: int|
                0 <= j < fragments.len() && (#[trigger] fragments[j]).id
                    == group.old_fragments[0].id;
            let f = fragments[j];
            assert(!fragment_ids(groups[0].old_fragments).contains(f.id)) by {
                if fragment_ids(groups[0].old_fragments).contains(f.id) {
                    let ids = fragment_ids(groups[0].old_fragments);
                    let i = choose|i: int| 0 <= i < ids.len() && ids[i] == f.id;
                    assert(groups[0].old_fragments[i].id != groups[k + 1].old_fragments[0].id);
                }
            }
            assert(fragments.contains(f));
            lemma_group_keeps(fragments, start, groups[0], next, f);
            let n = choose|n: int| 0 <= n < step.len() && step[n] == f;
            assert(step[n].id == group.old_fragments[0].id);
        }
        lemma_rewrites(step, rest, next + unnumbered(groups[0].new_fragments), version);
    }
}

/// Whether an index can be carried over: it is known what it covers, and of each group it
/// covers all or nothing.
pub open spec fn can_be_carried(index: IndexModel, groups: Seq<RewriteGroupModel>) -> bool {
    &&& index.fragment_bitmap is Some
    &&& forall|g: int|
        0 <= g < groups.len() && touches(index.fragment_bitmap->0, #[trigger] groups[g]) ==> spans(
            index.fragment_bitmap->0,
            groups[g],
        )
}

proof fn lemma_all_carried(indices: Seq<IndexModel>, groups: Seq<RewriteGroupModel>)
    requires
        forall|i: int|
            0 <= i < indices.len() && (#[trigger] indices[i]).fragment_bitmap is Some
                ==> can_be_carried(indices[i], groups),
    ensures
        rewrite_all_bitmaps(indices, groups) is Ok,
    decreases indices.len(),
{
    if indices.len() > 0 {
        let rest = indices.drop_first();
        assert(forall|i: int| 0 <= i < rest.len() ==> (#[trigger] rest[i]) == indices[i + 1]);
        lemma_all_carried(rest, groups);
        match indices[0].fragment_bitmap {
            Some(b) => {
                assert(can_be_carried(indices[0], groups));
                bitmap_is_recalculated(b, groups);
            },
            None => {},
        }
    }
}

/// Whether the entries from a position on name indices that can be carried over, no two of
/// them the same and none an id that another one gives.
spec fn can_follow(
    indices: Seq<IndexModel>,
    rewritten: Seq<RewrittenIndex>,
    k: int,
    groups: Seq<RewriteGroupModel>,
) -> bool {
    forall|e: int|
        k <= e < rewritten.len() ==> {
            let at = index_at(indices, (#[trigger] rewritten[e]).old_id);
            at is Some && can_be_carried(indices[at->0], groups)
        }
}

#[verifier::spinoff_prover]
#[verifier::rlimit(60)]
proof fn lemma_named_carried(
    indices: Seq<IndexModel>,
    rewritten: Seq<RewrittenIndex>,
    k: int,
    groups: Seq<RewriteGroupModel>,
)
    requires
        0 <= k <= rewritten.len(),
        no_chains(rewritten),
        forall|i: int, j: int|
            0 <= i < j < rewritten.len() ==> (#[trigger] rewritten[i]).old_id != (
            #[trigger] rewritten[j]).old_id,
        can_follow(indices, rewritten, k, groups),
    ensures
        rewrite_indices(indices, rewritten, k, groups).1 is None,
    decreases rewritten.len() - k,
{
    if k < rewritten.len() {
        let id = rewritten[k].old_id;
        assert(index_at(indices, rewritten[k].old_id) is Some);
        lemma_index_at(indices, id);
        let at = index_at(indices, id)->0;
        let b = indices[at].fragment_bitmap->0;
        bitmap_is_recalculated(b, groups);
        let c = rewrite_bitmap(b, b, groups)->Ok_0;
        let new = IndexModel {
            fragment_bitmap: Some(c),
            uuid: rewritten[k].new_id,
            ..indices[at]
        };
        let next = indices.update(at, new);
        assert(can_follow(next, rewritten, k + 1, groups)) by {
            assert forall|e: int| k + 1 <= e < rewritten.len() implies {
                let i = index_at(next, (#[trigger] rewritten[e]).old_id);
                i is Some && can_be_carried(next[i->0], groups)
            } by {
                let other = rewritten[e].old_id;
                assert(other != id);
                assert(rewritten[k].new_id != other);
                assert(index_at(indices, rewritten[e].old_id) is Some);
                lemma_index_at(indices, other);
                lemma_index_at(next, other);
                let i = index_at(indices, other)->0;
                assert(i != at);
                assert(next[i] == indices[i]);
                let j = index_at(next, other)->0;
                assert(index_at(next, other) is Some);
                assert(j != at);
                assert(next[j] == indices[j]);
                if j < i {
                    assert(indices[j].uuid != other);
                } else if i < j {
                    assert(next[i].uuid != other);
                }
            }
        }
        lemma_named_carried(next, rewritten, k + 1, groups);
    }
}

/// A rewrite can be planned where the groups are disjoint and the first old fragment of each
/// is there, stable row ids are not asked for in vain, and the indices can be carried over:
/// where row ids are kept, all of which it is known what they cover, and otherwise those
/// that are named, each once and none by an id that another entry gives.
#[verifier::spinoff_prover]
#[verifier::rlimit(60)]
pub proof fn rewriting_succeeds(
    t: TransactionModel,
    current: ManifestModel,
    indices: Seq<IndexModel>,
    stable_row_ids: bool,
    numbers: Seq<Option<(u32, u32)>>,
)
    requires
        t.operation is Rewrite,
        can_plan(t.operation, Some(current), indices, stable_row_ids, numbers),
        stable_row_ids ==> keeps_row_ids(current),
        are_disjoint(t.operation->groups),
        forall|k: int|
            0 <= k < t.operation->groups.len() ==> (
            #[trigger] t.operation->groups[k]).old_fragments.len() > 0 && is_present(
                current.fragments,
                t.operation->groups[k],
            ),
        keeps_row_ids(current) ==> forall|i: int|
            0 <= i < indices.len() && (#[trigger] indices[i]).fragment_bitmap is Some
                ==> can_be_carried(indices[i], t.operation->groups),
        !keeps_row_ids(current) ==> {
            let rewritten = t.operation->rewritten_indices;
            &&& no_chains(rewritten)
            &&& forall|i: int, j: int|
                0 <= i < j < rewritten.len() ==> (#[trigger] rewritten[i]).old_id != (
                #[trigger] rewritten[j]).old_id
            &&& forall|e: int|
                0 <= e < rewritten.len() ==> exists|i: int| #[trigger]
                    is_first_index(indices, i) && indices[i].uuid == (
                    #[trigger] rewritten[e]).old_id && can_be_carried(
                        indices[i],
                        t.operation->groups,
                    )
        },
    ensures
        plan(t, Some(current), indices, stable_row_ids, numbers) is Ok,
{
    let groups = t.operation->groups;
    let rewritten = t.operation->rewritten_indices;
    let first = next_fragment_id(t.operation, Some(current));
    lemma_rewrites(current.fragments, groups, first, current.version);
    if keeps_row_ids(current) {
        lemma_all_carried(indices, groups);
    } else {
        assert(can_follow(indices, rewritten, 0, groups)) by {
            assert forall|e: int| 0 <= e < rewritten.len() implies {
                let at = index_at(indices, (#[trigger] rewritten[e]).old_id);
                at is Some && can_be_carried(indices[at->0], groups)
            } by {
                let i = choose|i: int| #[trigger]
                    is_first_index(indices, i) && indices[i].uuid == rewritten[e].old_id
                        && can_be_carried(indices[i], groups);
                lemma_index_at(indices, rewritten[e].old_id);
                let at = index_at(indices, rewritten[e].old_id)->0;
                assert(indices[i].uuid == rewritten[e].old_id);
                if at < i {
                    assert(indices[at].uuid != indices[i].uuid);
                }
            }
        }
        lemma_named_carried(indices, rewritten, 0, groups);
    }
}

} // verus!
