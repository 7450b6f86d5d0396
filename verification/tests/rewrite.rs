//! Rewriting fragments.

use lance_dataset::format::Fragment;
use lance_dataset::operation::RewriteGroup;
use lance_dataset::transaction::Transaction;

#[test]
fn test_rewrite_fragments() {
    let existing_fragments: Vec<Fragment> = (0..10).map(Fragment::new).collect();

    let mut final_fragments = existing_fragments;
    let rewrite_groups = vec![
        // Since these are contiguous, they will be put in the same location
        // as 1 and 2.
        RewriteGroup {
            old_fragments: vec![Fragment::new(1), Fragment::new(2)],
            // These two fragments were previously reserved
            new_fragments: vec![Fragment::new(15), Fragment::new(16)],
        },
        // These are not contiguous, so they will be inserted at the end.
        RewriteGroup {
            old_fragments: vec![Fragment::new(5), Fragment::new(8)],
            // This id was not reserved.
            new_fragments: vec![Fragment::new(0)],
        },
    ];

    let mut fragment_id = 20;
    let version = 0;

    Transaction::handle_rewrite_fragments(
        &mut final_fragments,
        &rewrite_groups,
        &mut fragment_id,
        version,
    )
    .unwrap();

    assert_eq!(fragment_id, 21);

    let expected_fragments: Vec<Fragment> = vec![
        Fragment::new(0),
        Fragment::new(15),
        Fragment::new(16),
        Fragment::new(3),
        Fragment::new(4),
        Fragment::new(6),
        Fragment::new(7),
        Fragment::new(9),
        Fragment::new(20),
    ];

    assert_eq!(final_fragments, expected_fragments);
}
