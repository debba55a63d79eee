use blog_os_verified::memory::{
    describe_page_table_entry_inner, describe_page_table_inner, indent_for_level, table_actions,
    EntryReport, PageTableEntry, TableWalk, WalkAction,
};

#[test]
fn entry_round_trips_its_value() {
    for v in [0u64, 1, 0x8000_0000_0000_0067, u64::MAX, 0x1234_5678_9abc_def0] {
        assert_eq!(PageTableEntry::from(v).as_u64(), v);
    }
}

#[test]
fn flags_read_their_own_bits() {
    let e = PageTableEntry::from(0x8000_0000_0000_01ff);
    assert!(e.is_present());
    assert!(e.is_writeable());
    assert!(e.is_user_accessible());
    assert!(e.is_write_through_caching());
    assert!(e.is_disable_cache());
    assert!(e.is_accessed());
    assert!(e.is_dirty());
    assert!(e.is_huge_page());
    assert!(e.is_global());
    assert!(e.is_not_executable());
    let z = PageTableEntry::from(0);
    assert!(!z.is_present());
    assert!(!z.is_writeable());
    assert!(!z.is_user_accessible());
    assert!(!z.is_write_through_caching());
    assert!(!z.is_disable_cache());
    assert!(!z.is_accessed());
    assert!(!z.is_dirty());
    assert!(!z.is_huge_page());
    assert!(!z.is_global());
    assert!(!z.is_not_executable());
    let only_writable = PageTableEntry::from(0b10);
    assert!(!only_writable.is_present());
    assert!(only_writable.is_writeable());
    let only_dirty = PageTableEntry::from(1 << 6);
    assert!(only_dirty.is_dirty());
    assert!(!only_dirty.is_accessed());
    assert!(!only_dirty.is_huge_page());
}

#[test]
fn physical_address_keeps_bits_12_to_51() {
    assert_eq!(PageTableEntry::from(0x0000_0000_0020_3003).physical_address(), 0x20_3000);
    assert_eq!(PageTableEntry::from(u64::MAX).physical_address(), 0x000f_ffff_ffff_f000);
    assert_eq!(PageTableEntry::from(0xfff).physical_address(), 0);
    assert_eq!(PageTableEntry::from(0xfff0_0000_0000_0000).physical_address(), 0);
}

#[test]
fn continuation_of_consecutive_small_pages() {
    let prev = PageTableEntry::from(0x5000 | 0b11);
    let next = PageTableEntry::from(0x6000 | 0b11);
    assert!(next.is_continuation_of(&prev));
    assert!(!prev.is_continuation_of(&next));
    let gap = PageTableEntry::from(0x8000 | 0b11);
    assert!(!gap.is_continuation_of(&prev));
}

#[test]
fn continuation_of_consecutive_huge_pages() {
    let prev = PageTableEntry::from(0x20_0000 | 0x83);
    let next = PageTableEntry::from(0x40_0000 | 0x83);
    assert!(next.is_continuation_of(&prev));
    let small_step = PageTableEntry::from(0x20_1000 | 0x83);
    assert!(!small_step.is_continuation_of(&prev));
}

#[test]
fn continuation_needs_equal_flags() {
    let prev = PageTableEntry::from(0x5000 | 0b11);
    let next_read_only = PageTableEntry::from(0x6000 | 0b01);
    assert!(!next_read_only.is_continuation_of(&prev));
    let next_nx = PageTableEntry::from(0x8000_0000_0000_6003);
    assert!(!next_nx.is_continuation_of(&prev));
}

#[test]
fn absent_entries_continue_each_other() {
    let a = PageTableEntry::from(0);
    let b = PageTableEntry::from(0x1234_5000);
    assert!(b.is_continuation_of(&a));
    assert!(a.is_continuation_of(&a));
}

#[test]
fn first_and_last_entries_are_always_shown() {
    let r = describe_page_table_entry_inner(0, 0, 0, 1, 0, 0);
    assert_eq!(r, EntryReport::Shown { skipped: 0, descend: None });
    let r = describe_page_table_entry_inner(0, 0, 511, 1, 0, 7);
    assert_eq!(r, EntryReport::Shown { skipped: 7, descend: None });
}

#[test]
fn continuing_entry_is_folded() {
    let r = describe_page_table_entry_inner(0x2000, 0x6003, 2, 1, 0x5003, 3);
    assert_eq!(r, EntryReport::Continued { skipped: 4 });
}

#[test]
fn present_directory_entry_is_walked_into() {
    let r = describe_page_table_entry_inner(0x80_0000_0000, 0x7000 | 0b11, 1, 4, 0x6003, 0);
    assert_eq!(
        r,
        EntryReport::Shown {
            skipped: 0,
            descend: Some(TableWalk {
                virtual_address: 0x80_0000_0000,
                physical_address: 0x7000,
                level: 3
            })
        }
    );
}

#[test]
fn huge_page_entry_is_not_walked_into() {
    let r = describe_page_table_entry_inner(0, 0x20_0083, 0, 2, 0, 0);
    assert_eq!(r, EntryReport::Shown { skipped: 0, descend: None });
}

#[test]
fn table_walk_folds_runs_and_counts_them() {
    let mut table = vec![0u64; 512];
    for (i, e) in table.iter_mut().enumerate().take(5) {
        *e = 0x10_0000 + (i as u64) * 0x1000 + 3;
    }
    let lines = describe_page_table_inner(0x40_0000, 0x9000, 1, &table);
    assert_eq!(lines.len(), 512);
    assert_eq!(lines[0].report, EntryReport::Shown { skipped: 0, descend: None });
    assert_eq!(lines[1].report, EntryReport::Continued { skipped: 1 });
    assert_eq!(lines[4].report, EntryReport::Continued { skipped: 4 });
    // entry 5 is absent: it does not continue a present entry
    assert_eq!(lines[5].report, EntryReport::Shown { skipped: 4, descend: None });
    assert_eq!(lines[6].report, EntryReport::Continued { skipped: 1 });
    assert_eq!(lines[510].report, EntryReport::Continued { skipped: 505 });
    assert_eq!(lines[511].report, EntryReport::Shown { skipped: 505, descend: None });
    assert_eq!(lines[3].virtual_address, 0x40_3000);
    assert_eq!(lines[3].slot_address, 0x9018);
    assert_eq!(lines[3].index, 3);
    assert_eq!(lines[3].entry, 0x10_3003);
}

#[test]
fn top_level_walk_descends_into_present_tables() {
    let mut table = vec![0u64; 512];
    table[0] = 0x2000 | 0b111;
    table[1] = 0x3000 | 0b111;
    let lines = describe_page_table_inner(0, 0x1000, 4, &table);
    assert_eq!(
        lines[1].report,
        EntryReport::Shown {
            skipped: 0,
            descend: Some(TableWalk {
                virtual_address: 0x80_0000_0000,
                physical_address: 0x3000,
                level: 3
            })
        }
    );
    assert_eq!(lines[511].virtual_address, 511 * 0x80_0000_0000);
}

#[test]
fn indentation_grows_with_depth() {
    assert_eq!(indent_for_level(4), "");
    assert_eq!(indent_for_level(3), "  ");
    assert_eq!(indent_for_level(2), "    ");
    assert_eq!(indent_for_level(1), "      ");
}

#[test]
fn table_actions_list_shown_entries_in_order() {
    let mut table = vec![0u64; 512];
    table[0] = 0x2000 | 0b111;
    table[1] = 0x3000 | 0b111;
    let lines = describe_page_table_inner(0, 0x1000, 4, &table);
    let actions = table_actions(&lines);
    assert_eq!(actions[0], WalkAction::Show(lines[0]));
    assert_eq!(
        actions[1],
        WalkAction::Descend(TableWalk { virtual_address: 0, physical_address: 0x2000, level: 3 })
    );
    assert_eq!(actions[2], WalkAction::Show(lines[1]));
    assert_eq!(
        actions[3],
        WalkAction::Descend(TableWalk {
            virtual_address: 0x80_0000_0000,
            physical_address: 0x3000,
            level: 3
        })
    );
    // entries 2..=510 are absent and fold; 511 is shown after the count
    assert_eq!(actions[4], WalkAction::Show(lines[2]));
    assert_eq!(actions[5], WalkAction::ShowSkipped(508));
    assert_eq!(actions[6], WalkAction::Show(lines[511]));
    assert_eq!(actions.len(), 7);
}
