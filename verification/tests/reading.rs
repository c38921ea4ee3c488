//! What readers make of what they saw.

use crossbar::protocol::pool::pack;
use crossbar::protocol::reading::{
    judge_entry, judge_length, judge_pinned, EntryLook, PinnedLook,
};

#[test]
fn a_length_counts_only_between_two_looks_at_its_number() {
    assert_eq!(judge_length(7, 7, 5, 7, 8), Some(5));
    assert_eq!(judge_length(7, 7, 8, 7, 8), Some(8));
    assert_eq!(judge_length(7, 7, 9, 7, 8), None);
    assert_eq!(judge_length(7, 6, 5, 7, 8), None);
    assert_eq!(judge_length(7, 7, 5, 0, 8), None);
    assert_eq!(judge_length(7, 0, 5, 0, 8), None);
}

#[test]
fn an_entry_counts_only_between_two_looks_at_its_number() {
    let look = EntryLook {
        before: 3,
        block: 2,
        len: 10,
        after: 3,
    };
    assert_eq!(judge_entry(3, look, 4, 56), Some((2, 10)));
    assert_eq!(judge_entry(4, look, 4, 56), None);
    assert_eq!(judge_entry(3, look, 2, 56), None);
    assert_eq!(judge_entry(3, look, 4, 9), None);
    assert_eq!(judge_entry(3, EntryLook { after: 0, ..look }, 4, 56), None);
    assert_eq!(judge_entry(3, EntryLook { before: 2, ..look }, 4, 56), None);
    let none = EntryLook {
        block: u32::MAX,
        ..look
    };
    assert_eq!(judge_entry(3, none, u32::MAX, 56), None);
}

#[test]
fn a_pinned_sample_counts_only_if_its_word_stays() {
    let word = pack(5, 12);
    let look = PinnedLook {
        before: word,
        block: 1,
        after: word,
    };
    assert_eq!(judge_pinned(4, look, 4, 56), Some((5, 12)));
    assert_eq!(judge_pinned(5, look, 4, 56), None);
    assert_eq!(judge_pinned(4, look, 1, 56), None);
    assert_eq!(judge_pinned(4, look, 4, 11), None);
    let changed = PinnedLook {
        after: pack(6, 12),
        ..look
    };
    assert_eq!(judge_pinned(4, changed, 4, 56), None);
    let empty = PinnedLook {
        before: 0,
        block: 1,
        after: 0,
    };
    assert_eq!(judge_pinned(0, empty, 4, 56), None);
}
