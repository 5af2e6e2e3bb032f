use nano_vault::state::{nv_category_t, nv_entry_t, nv_state_t, MAX_ENTRIES, MAX_LABEL_LEN};

fn vault_with(entries: &[(u8, i64)]) -> nv_state_t {
    let mut state = nv_state_t::new();
    for (id, amount) in entries {
        assert!(state.add_entry(*id, nv_category_t::NV_CAT_ASSET, b"item", *amount));
    }
    state
}

#[test]
fn new_vault_is_empty_and_locked() {
    let state = nv_state_t::new();
    assert_eq!(state.entry_count, 0);
    assert!(state.is_locked);
    for entry in state.entries.iter() {
        assert!(!entry.is_active);
        assert_eq!(entry.label_len, 0);
        assert_eq!(entry.category, nv_category_t::NV_CAT_ASSET);
    }
    assert!(state.entry_at(0).is_none());
    assert_eq!(state.total_net(), 0);
}

#[test]
fn default_vault_is_new_vault() {
    let state = nv_state_t::default();
    assert_eq!(state.entry_count, 0);
    assert!(state.is_locked);
    assert!(state.entries.iter().all(|e| !e.is_active));
}

#[test]
fn category_names() {
    assert_eq!(nv_category_t::NV_CAT_ASSET.as_str(), "asset");
    assert_eq!(nv_category_t::NV_CAT_DEBT.as_str(), "debt");
    assert_eq!(nv_category_t::NV_CAT_VAULT.as_str(), "vault stash");
    assert_eq!(nv_category_t::NV_CAT_EMERGENCY.as_str(), "emergency");
}

#[test]
fn empty_entry() {
    let entry = nv_entry_t::empty();
    assert_eq!(entry.id, 0);
    assert_eq!(entry.category, nv_category_t::NV_CAT_ASSET);
    assert_eq!(entry.label, [0u8; MAX_LABEL_LEN]);
    assert_eq!(entry.label_len, 0);
    assert_eq!(entry.amount_cents, 0);
    assert!(!entry.is_active);
}

#[test]
fn new_entry_keeps_short_label() {
    let entry = nv_entry_t::new(3, nv_category_t::NV_CAT_VAULT, b"Stash", -42);
    assert_eq!(entry.id, 3);
    assert_eq!(entry.category, nv_category_t::NV_CAT_VAULT);
    assert_eq!(entry.amount_cents, -42);
    assert!(entry.is_active);
    assert_eq!(entry.label_len, 5);
    assert_eq!(&entry.label[..5], b"Stash");
    assert!(entry.label[5..].iter().all(|b| *b == 0));
    assert_eq!(entry.label(), "Stash");
}

#[test]
fn new_entry_cuts_long_label() {
    let entry = nv_entry_t::new(1, nv_category_t::NV_CAT_EMERGENCY, b"Emergency Fund Reserve", 1);
    assert_eq!(entry.label_len as usize, MAX_LABEL_LEN);
    assert_eq!(entry.label(), "Emergency Fund R");
}

#[test]
fn new_entry_with_empty_label() {
    let entry = nv_entry_t::new(1, nv_category_t::NV_CAT_DEBT, b"", 1);
    assert_eq!(entry.label_len, 0);
    assert_eq!(entry.label(), "");
}

#[test]
fn label_that_is_not_utf8() {
    let entry = nv_entry_t::new(1, nv_category_t::NV_CAT_DEBT, &[0xff, 0xfe, 0x41], 1);
    assert_eq!(entry.label(), "Invalid label");
}

#[test]
fn label_cut_inside_a_character_is_invalid() {
    // 15 ASCII bytes and a two-byte character: the cut keeps only its first byte.
    let mut label = b"aaaaaaaaaaaaaaa".to_vec();
    label.extend_from_slice("é".as_bytes());
    let entry = nv_entry_t::new(1, nv_category_t::NV_CAT_DEBT, &label, 1);
    assert_eq!(entry.label(), "Invalid label");
}

#[test]
fn multibyte_label_is_kept() {
    let entry = nv_entry_t::new(1, nv_category_t::NV_CAT_DEBT, "café".as_bytes(), 1);
    assert_eq!(entry.label(), "café");
}

#[test]
fn wipe_clears_all_but_category() {
    let mut entry = nv_entry_t::new(9, nv_category_t::NV_CAT_DEBT, b"Loan", 7_000);
    entry.wipe();
    assert_eq!(entry.id, 0);
    assert_eq!(entry.label, [0u8; MAX_LABEL_LEN]);
    assert_eq!(entry.label_len, 0);
    assert_eq!(entry.amount_cents, 0);
    assert!(!entry.is_active);
    assert_eq!(entry.category, nv_category_t::NV_CAT_DEBT);
}

#[test]
fn add_entry_fills_first_free_slot() {
    let mut state = nv_state_t::new();
    assert!(state.add_entry(1, nv_category_t::NV_CAT_EMERGENCY, b"Emergency Fund", 50_000));
    assert_eq!(state.entry_count, 1);
    let entry = state.entries[0];
    assert!(entry.is_active);
    assert_eq!(entry.id, 1);
    assert_eq!(entry.category, nv_category_t::NV_CAT_EMERGENCY);
    assert_eq!(entry.amount_cents, 50_000);
    assert_eq!(entry.label(), "Emergency Fund");
    assert!(!state.entries[1].is_active);
    assert!(state.is_locked);
}

#[test]
fn add_entry_reuses_freed_slot() {
    let mut state = vault_with(&[(1, 10), (2, 20), (3, 30)]);
    assert!(state.remove_entry(2));
    assert!(state.add_entry(4, nv_category_t::NV_CAT_DEBT, b"new", 40));
    assert_eq!(state.entries[1].id, 4);
    assert_eq!(state.entry_count, 3);
}

#[test]
fn add_entry_refused_when_full() {
    let mut state = nv_state_t::new();
    for id in 0..MAX_ENTRIES as u8 {
        assert!(state.add_entry(id, nv_category_t::NV_CAT_ASSET, b"x", 1));
    }
    assert_eq!(state.entry_count as usize, MAX_ENTRIES);
    assert!(!state.add_entry(99, nv_category_t::NV_CAT_ASSET, b"y", 2));
    assert_eq!(state.entry_count as usize, MAX_ENTRIES);
    assert!(state.entries.iter().all(|e| e.id != 99));
}

#[test]
fn add_entry_refused_when_count_says_full() {
    let mut state = nv_state_t::new();
    state.entry_count = MAX_ENTRIES as u8;
    assert!(!state.add_entry(1, nv_category_t::NV_CAT_ASSET, b"x", 1));
    assert!(!state.entries[0].is_active);
}

#[test]
fn add_entry_refused_when_no_slot_is_free() {
    let mut state = vault_with(&[(0, 1), (1, 1), (2, 1), (3, 1), (4, 1), (5, 1), (6, 1), (7, 1)]);
    state.entry_count = 3;
    assert!(!state.add_entry(9, nv_category_t::NV_CAT_ASSET, b"x", 1));
    assert_eq!(state.entry_count, 3);
}

#[test]
fn remove_entry_wipes_and_counts_down() {
    let mut state = vault_with(&[(1, 10), (2, 20)]);
    state.entries[1].category = nv_category_t::NV_CAT_VAULT;
    assert!(state.remove_entry(2));
    assert_eq!(state.entry_count, 1);
    let slot = state.entries[1];
    assert!(!slot.is_active);
    assert_eq!(slot.id, 0);
    assert_eq!(slot.amount_cents, 0);
    assert_eq!(slot.label, [0u8; MAX_LABEL_LEN]);
    assert_eq!(slot.category, nv_category_t::NV_CAT_VAULT);
}

#[test]
fn remove_missing_entry_changes_nothing() {
    let mut state = vault_with(&[(1, 10)]);
    assert!(!state.remove_entry(5));
    assert_eq!(state.entry_count, 1);
    assert!(state.entries[0].is_active);
}

#[test]
fn remove_takes_first_of_duplicate_ids() {
    let mut state = vault_with(&[(1, 10), (1, 20)]);
    assert!(state.remove_entry(1));
    assert!(!state.entries[0].is_active);
    assert!(state.entries[1].is_active);
    assert_eq!(state.entries[1].amount_cents, 20);
}

#[test]
fn remove_never_counts_below_zero() {
    let mut state = vault_with(&[(1, 10)]);
    state.entry_count = 0;
    assert!(state.remove_entry(1));
    assert_eq!(state.entry_count, 0);
}

#[test]
fn update_entry_sets_amount() {
    let mut state = vault_with(&[(1, 10), (2, 20)]);
    assert!(state.update_entry(2, -5));
    assert_eq!(state.entries[1].amount_cents, -5);
    assert_eq!(state.entries[0].amount_cents, 10);
    assert_eq!(state.entry_count, 2);
}

#[test]
fn update_missing_entry_changes_nothing() {
    let mut state = vault_with(&[(1, 10)]);
    assert!(!state.update_entry(3, 99));
    assert_eq!(state.entries[0].amount_cents, 10);
}

#[test]
fn inactive_entry_is_not_updated() {
    let mut state = vault_with(&[(1, 10)]);
    assert!(state.remove_entry(1));
    assert!(!state.update_entry(0, 99));
}

#[test]
fn added_entry_is_found_by_its_id() {
    let mut state = vault_with(&[(1, 10), (2, 20)]);
    assert!(state.add_entry(7, nv_category_t::NV_CAT_DEBT, b"loan", 5));
    assert!(state.update_entry(7, 6));
    assert_eq!(state.entries[2].amount_cents, 6);
    assert!(state.remove_entry(7));
    assert_eq!(state.entry_count, 2);
}

#[test]
fn entry_at_skips_free_slots() {
    let mut state = vault_with(&[(1, 10), (2, 20), (3, 30)]);
    assert!(state.remove_entry(2));
    assert_eq!(state.entry_at(0).unwrap().id, 1);
    assert_eq!(state.entry_at(1).unwrap().id, 3);
    assert!(state.entry_at(2).is_none());
    assert!(state.entry_at(usize::MAX).is_none());
}

#[test]
fn entry_at_exists_below_count() {
    let state = vault_with(&[(1, 10), (2, 20), (3, 30)]);
    for index in 0..10usize {
        assert_eq!(state.entry_at(index).is_some(), index < state.entry_count as usize);
    }
}

#[test]
fn total_net_sums_active_amounts() {
    let mut state = vault_with(&[(1, 10_000), (2, -2_500), (3, 99)]);
    assert_eq!(state.total_net(), 7_599);
    assert!(state.remove_entry(2));
    assert_eq!(state.total_net(), 10_099);
    assert!(state.update_entry(3, 1));
    assert_eq!(state.total_net(), 10_001);
}

#[test]
fn total_net_saturates_high() {
    let state = vault_with(&[(1, i64::MAX), (2, 1), (3, -5)]);
    assert_eq!(state.total_net(), i64::MAX - 5);
}

#[test]
fn total_net_saturates_low() {
    let state = vault_with(&[(1, i64::MIN), (2, -1)]);
    assert_eq!(state.total_net(), i64::MIN);
}

#[test]
fn count_stays_in_step_with_active_slots() {
    let mut state = nv_state_t::new();
    let mut expected = 0usize;
    for step in 0..40u8 {
        let id = step % 5;
        if step % 3 == 0 {
            if state.remove_entry(id) {
                expected -= 1;
            }
        } else if state.add_entry(id, nv_category_t::NV_CAT_ASSET, b"x", step as i64) {
            expected += 1;
        }
        let active = state.entries.iter().filter(|e| e.is_active).count();
        assert_eq!(active, expected);
        assert_eq!(state.entry_count as usize, active);
        assert!(active <= MAX_ENTRIES);
    }
}

#[test]
fn added_entry_is_listed_in_slot_order() {
    let mut state = vault_with(&[(1, 10), (2, 20), (3, 30)]);
    assert!(state.remove_entry(1));
    assert!(state.add_entry(9, nv_category_t::NV_CAT_DEBT, b"late", 90));
    assert_eq!(state.entry_at(0).unwrap().id, 9);
    assert_eq!(state.entry_at(1).unwrap().id, 2);
    assert_eq!(state.entry_at(2).unwrap().id, 3);
    assert!(state.entry_at(3).is_none());
}
