use vstd::prelude::*;
use vstd::string::StringSliceAdditionalSpecFns;

use crate::crypto::zeroize_bytes;
use crate::utils::utf8_str;

verus! {

/// How many entries the vault holds at most.
pub const MAX_ENTRIES: usize = 8;

/// How many bytes of a label are kept.
pub const MAX_LABEL_LEN: usize = 16;

/// The kind of money an entry tracks.
#[derive(Copy, Clone, PartialEq, Eq, Structural, Debug)]
#[allow(non_camel_case_types)]
pub enum nv_category_t {
    NV_CAT_ASSET,
    NV_CAT_DEBT,
    NV_CAT_VAULT,
    NV_CAT_EMERGENCY,
}

/// The name under which a category is shown.
pub open spec fn category_name(category: nv_category_t) -> Seq<char> {
    match category {
        nv_category_t::NV_CAT_ASSET => "asset"@,
        nv_category_t::NV_CAT_DEBT => "debt"@,
        nv_category_t::NV_CAT_VAULT => "vault stash"@,
        nv_category_t::NV_CAT_EMERGENCY => "emergency"@,
    }
}

impl nv_category_t {
    /// The name under which the category is shown.
    pub fn as_str(self) -> (name: &'static str)
        ensures
            name@ == category_name(self),
    {
        match self {
            Self::NV_CAT_ASSET => "asset",
            Self::NV_CAT_DEBT => "debt",
            Self::NV_CAT_VAULT => "vault stash",
            Self::NV_CAT_EMERGENCY => "emergency",
        }
    }
}

/// One slot of the vault: a labelled amount of money in cents.
#[derive(Copy, Clone, Debug)]
#[allow(non_camel_case_types)]
pub struct nv_entry_t {
    pub id: u8,
    pub category: nv_category_t,
    pub label: [u8; MAX_LABEL_LEN],
    pub label_len: u8,
    pub amount_cents: i64,
    pub is_active: bool,
}

/// The number of label bytes kept of a label of `len` bytes.
pub open spec fn stored_label_len(len: nat) -> nat {
    if len < MAX_LABEL_LEN {
        len
    } else {
        MAX_LABEL_LEN as nat
    }
}

impl nv_entry_t {
    /// The label's bytes: the first `label_len` bytes of `label`.
    pub open spec fn label_bytes(&self) -> Seq<u8> {
        self.label@.subrange(0, self.label_len as int)
    }

    /// Every label byte past `label_len` is zero.
    pub open spec fn label_tail_is_zero(&self) -> bool {
        forall|i: int| self.label_len <= i < MAX_LABEL_LEN ==> #[trigger] self.label@[i] == 0
    }

    /// Nothing is left of the entry but its category: id, label, length and
    /// amount are zero and the slot is free.
    pub open spec fn is_blank(&self) -> bool {
        &&& self.id == 0
        &&& self.label_len == 0
        &&& self.label_tail_is_zero()
        &&& self.amount_cents == 0
        &&& !self.is_active
    }

    /// The entry is what `new` makes of these arguments: active, with the
    /// first `MAX_LABEL_LEN` bytes of `label` and zeros after them.
    pub open spec fn is_made_of(
        &self,
        id: u8,
        category: nv_category_t,
        label: Seq<u8>,
        amount_cents: i64,
    ) -> bool {
        &&& self.id == id
        &&& self.category == category
        &&& self.amount_cents == amount_cents
        &&& self.is_active
        &&& self.label_len == stored_label_len(label.len())
        &&& self.label_bytes() == label.subrange(0, self.label_len as int)
        &&& self.label_tail_is_zero()
    }

    /// A free slot: blank, in the asset category.
    pub fn empty() -> (entry: Self)
        ensures
            entry.is_blank(),
            entry.category == nv_category_t::NV_CAT_ASSET,
            entry.id == 0,
            entry.label_len == 0,
            entry.amount_cents == 0,
            !entry.is_active,
            forall|i: int| 0 <= i < MAX_LABEL_LEN ==> #[trigger] entry.label@[i] == 0u8,
    {
        Self {
            id: 0,
            category: nv_category_t::NV_CAT_ASSET,
            label: [0u8; MAX_LABEL_LEN],
            label_len: 0,
            amount_cents: 0,
            is_active: false,
        }
    }

    /// An active entry; a label longer than `MAX_LABEL_LEN` bytes is cut.
    pub fn new(id: u8, category: nv_category_t, label: &[u8], amount_cents: i64) -> (entry: Self)
        ensures
            entry.is_made_of(id, category, label@, amount_cents),
            entry.id == id,
            entry.category == category,
            entry.amount_cents == amount_cents,
            entry.is_active,
            label@.len() <= MAX_LABEL_LEN ==> entry.label_len == label@.len()
                && entry.label_bytes() == label@,
            label@.len() > MAX_LABEL_LEN ==> entry.label_len == MAX_LABEL_LEN
                && entry.label_bytes() == label@.subrange(0, MAX_LABEL_LEN as int),
    {
        let mut entry = Self::empty();
        entry.id = id;
        entry.category = category;
        entry.amount_cents = amount_cents;
        let length: usize = if label.len() < MAX_LABEL_LEN {
            label.len()
        } else {
            MAX_LABEL_LEN
        };
        entry.label_len = length as u8;
        let mut i: usize = 0;
        while i < length
            invariant
                i <= length,
                length <= MAX_LABEL_LEN,
                length <= label@.len(),
                entry.label_len == length,
                forall|j: int| 0 <= j < i ==> entry.label@[j] == label@[j],
                forall|j: int| i <= j < MAX_LABEL_LEN ==> entry.label@[j] == 0,
                entry.id == id,
                entry.category == category,
                entry.amount_cents == amount_cents,
            decreases length - i,
        {
            entry.label[i] = label[i];
            i += 1;
        }
        entry.is_active = true;
        assert(entry.label_bytes() =~= label@.subrange(0, length as int));
        assert(label@.len() <= MAX_LABEL_LEN ==> label@.subrange(0, length as int) =~= label@);
        entry
    }

    /// The label as text, or "Invalid label" when its bytes are not UTF-8.
    pub fn label(&self) -> (text: &str)
        requires
            self.label_len <= MAX_LABEL_LEN,
        ensures
            vstd::utf8::valid_utf8(self.label_bytes()) ==> text.spec_bytes()
                == self.label_bytes(),
            !vstd::utf8::valid_utf8(self.label_bytes()) ==> text@ == "Invalid label"@,
    {
        utf8_str(&self.label[0..self.label_len as usize]).unwrap_or("Invalid label")
    }

    /// Erases the entry: its label bytes are zeroed and the slot is freed.
    /// The category stays.
    pub fn wipe(&mut self)
        ensures
            final(self).is_blank(),
            final(self).category == old(self).category,
            final(self).id == 0,
            final(self).label_len == 0,
            final(self).amount_cents == 0,
            !final(self).is_active,
            forall|i: int| 0 <= i < MAX_LABEL_LEN ==> #[trigger] final(self).label@[i] == 0u8,
    {
        zeroize_bytes(&mut self.label);
        self.id = 0;
        self.label_len = 0;
        self.amount_cents = 0;
        self.is_active = false;
    }
}

/// The number of active entries in `entries` from index `i` on.
pub open spec fn active_count_from(entries: Seq<nv_entry_t>, i: int) -> nat
    decreases entries.len() - i,
{
    if i < 0 || i >= entries.len() {
        0
    } else {
        active_count_from(entries, i + 1) + if entries[i].is_active {
            1nat
        } else {
            0nat
        }
    }
}

/// The number of active entries.
pub open spec fn active_count(entries: Seq<nv_entry_t>) -> nat {
    active_count_from(entries, 0)
}

/// The index of the first free slot at or after `i`; the length when there is
/// none.
pub open spec fn first_inactive_from(entries: Seq<nv_entry_t>, i: int) -> int
    decreases entries.len() - i,
{
    if i < 0 || i >= entries.len() {
        entries.len() as int
    } else if !entries[i].is_active {
        i
    } else {
        first_inactive_from(entries, i + 1)
    }
}

/// The index of the first free slot; the length when there is none.
pub open spec fn first_inactive(entries: Seq<nv_entry_t>) -> int {
    first_inactive_from(entries, 0)
}

/// The index of the first active entry with `id` at or after `i`; the length
/// when there is none.
pub open spec fn find_active_from(entries: Seq<nv_entry_t>, id: u8, i: int) -> int
    decreases entries.len() - i,
{
    if i < 0 || i >= entries.len() {
        entries.len() as int
    } else if entries[i].is_active && entries[i].id == id {
        i
    } else {
        find_active_from(entries, id, i + 1)
    }
}

/// The index of the first active entry with `id`; the length when there is
/// none.
pub open spec fn find_active(entries: Seq<nv_entry_t>, id: u8) -> int {
    find_active_from(entries, id, 0)
}

/// The index of the active entry that comes `n`-th (from 0) among the active
/// entries at or after `i`; the length when there are not that many.
pub open spec fn nth_active_from(entries: Seq<nv_entry_t>, n: nat, i: int) -> int
    decreases entries.len() - i,
{
    if i < 0 || i >= entries.len() {
        entries.len() as int
    } else if entries[i].is_active {
        if n == 0 {
            i
        } else {
            nth_active_from(entries, (n - 1) as nat, i + 1)
        }
    } else {
        nth_active_from(entries, n, i + 1)
    }
}

/// The index of the `n`-th active entry (from 0); the length when there are
/// not that many.
pub open spec fn nth_active(entries: Seq<nv_entry_t>, n: nat) -> int {
    nth_active_from(entries, n, 0)
}

/// `a + b`, held to the range of `i64`.
pub open spec fn saturating_add_i64(a: int, b: int) -> int {
    if a + b > i64::MAX {
        i64::MAX as int
    } else if a + b < i64::MIN {
        i64::MIN as int
    } else {
        a + b
    }
}

/// The running total of the active amounts of the first `n` entries, each
/// addition held to the range of `i64`.
pub open spec fn net_total_upto(entries: Seq<nv_entry_t>, n: int) -> int
    decreases n,
{
    if n <= 0 {
        0
    } else {
        let before = net_total_upto(entries, n - 1);
        if entries[n - 1].is_active {
            saturating_add_i64(before, entries[n - 1].amount_cents as int)
        } else {
            before
        }
    }
}

/// The running total of all active amounts, each addition held to the range
/// of `i64`.
pub open spec fn net_total(entries: Seq<nv_entry_t>) -> int {
    net_total_upto(entries, entries.len() as int)
}

/// The exact sum of the active amounts of the first `n` entries.
pub open spec fn plain_total_upto(entries: Seq<nv_entry_t>, n: int) -> int
    decreases n,
{
    if n <= 0 {
        0
    } else {
        plain_total_upto(entries, n - 1) + if entries[n - 1].is_active {
            entries[n - 1].amount_cents as int
        } else {
            0
        }
    }
}

/// The vault: a fixed array of slots, a count of the used ones, and a lock
/// flag.
#[allow(non_camel_case_types)]
pub struct nv_state_t {
    pub entries: [nv_entry_t; MAX_ENTRIES],
    pub entry_count: u8,
    pub is_locked: bool,
}

impl nv_state_t {
    /// The count matches the active slots, and every label length fits the
    /// label array.
    pub open spec fn wf(&self) -> bool {
        &&& self.entry_count == active_count(self.entries@)
        &&& forall|i: int|
            0 <= i < MAX_ENTRIES ==> (#[trigger] self.entries@[i]).label_len <= MAX_LABEL_LEN
    }

    /// An empty, locked vault.
    pub fn new() -> (state: Self)
        ensures
            forall|i: int| 0 <= i < MAX_ENTRIES ==> (#[trigger] state.entries@[i]).is_blank(),
            forall|i: int|
                0 <= i < MAX_ENTRIES ==> (#[trigger] state.entries@[i]).category
                    == nv_category_t::NV_CAT_ASSET,
            state.entry_count == 0,
            state.is_locked,
            state.wf(),
    {
        let state = Self { entries: [nv_entry_t::empty();MAX_ENTRIES], entry_count: 0, is_locked: true };
        proof {
            lemma_count_all_inactive(state.entries@, 0);
        }
        state
    }
}

proof fn lemma_active_count_update(entries: Seq<nv_entry_t>, k: int, e: nv_entry_t, i: int)
    requires
        0 <= k < entries.len(),
        0 <= i,
    ensures
        active_count_from(entries.update(k, e), i) + (if i <= k && entries[k].is_active {
            1nat
        } else {
            0nat
        }) == active_count_from(entries, i) + (if i <= k && e.is_active {
            1nat
        } else {
            0nat
        }),
    decreases entries.len() - i,
{
    if i < entries.len() {
        lemma_active_count_update(entries, k, e, i + 1);
    }
}

proof fn lemma_active_count_bound(entries: Seq<nv_entry_t>, i: int)
    requires
        0 <= i <= entries.len(),
    ensures
        active_count_from(entries, i) <= entries.len() - i,
    decreases entries.len() - i,
{
    if i < entries.len() {
        lemma_active_count_bound(entries, i + 1);
    }
}

proof fn lemma_no_free_slot(entries: Seq<nv_entry_t>, i: int)
    requires
        0 <= i <= entries.len(),
        first_inactive_from(entries, i) == entries.len(),
    ensures
        active_count_from(entries, i) == entries.len() - i,
    decreases entries.len() - i,
{
    if i < entries.len() {
        lemma_no_free_slot(entries, i + 1);
    }
}

/// The `n`-th active entry at or after `i` exists exactly when fewer than
/// `n + 1` active entries are missing there; it is active.
pub proof fn lemma_nth_active_exists(entries: Seq<nv_entry_t>, n: nat, i: int)
    requires
        0 <= i <= entries.len(),
    ensures
        nth_active_from(entries, n, i) < entries.len() <==> n < active_count_from(entries, i),
        i <= nth_active_from(entries, n, i) <= entries.len(),
        nth_active_from(entries, n, i) < entries.len() ==> entries[nth_active_from(
            entries,
            n,
            i,
        )].is_active,
    decreases entries.len() - i,
{
    if i < entries.len() {
        if entries[i].is_active && n > 0 {
            lemma_nth_active_exists(entries, (n - 1) as nat, i + 1);
        } else {
            lemma_nth_active_exists(entries, n, i + 1);
        }
    }
}

/// A label of at most `MAX_LABEL_LEN` bytes is kept whole; a longer one is
/// cut to exactly `MAX_LABEL_LEN` bytes.
pub proof fn lemma_stored_label_len(len: nat)
    ensures
        len <= MAX_LABEL_LEN ==> stored_label_len(len) == len,
        len > MAX_LABEL_LEN ==> stored_label_len(len) == MAX_LABEL_LEN,
        stored_label_len(len) <= len,
        stored_label_len(len) <= MAX_LABEL_LEN,
{
}

/// The slot `add_entry` fills is the lowest free one: it is free and every
/// slot before it is in use; when it is the length, every slot is in use.
pub proof fn lemma_first_inactive_is_least_free(entries: Seq<nv_entry_t>)
    ensures
        0 <= first_inactive(entries) <= entries.len(),
        first_inactive(entries) < entries.len() ==> !entries[first_inactive(entries)].is_active,
        forall|j: int|
            0 <= j < first_inactive(entries) ==> (#[trigger] entries[j]).is_active,
{
    lemma_first_inactive_from_least(entries, 0);
}

proof fn lemma_first_inactive_from_least(entries: Seq<nv_entry_t>, i: int)
    requires
        0 <= i <= entries.len(),
    ensures
        i <= first_inactive_from(entries, i) <= entries.len(),
        first_inactive_from(entries, i) < entries.len() ==> !entries[first_inactive_from(
            entries,
            i,
        )].is_active,
        forall|j: int|
            i <= j < first_inactive_from(entries, i) ==> (#[trigger] entries[j]).is_active,
    decreases entries.len() - i,
{
    if i < entries.len() {
        lemma_first_inactive_from_least(entries, i + 1);
    }
}

/// The slot `update_entry` and `remove_entry` act on is the lowest one that
/// is in use and carries the id; when it is the length, no slot in use
/// carries the id.
pub proof fn lemma_find_active_is_least_match(entries: Seq<nv_entry_t>, id: u8)
    ensures
        0 <= find_active(entries, id) <= entries.len(),
        find_active(entries, id) < entries.len() ==> {
            &&& entries[find_active(entries, id)].is_active
            &&& entries[find_active(entries, id)].id == id
        },
        forall|j: int|
            0 <= j < find_active(entries, id) ==> !((#[trigger] entries[j]).is_active
                && entries[j].id == id),
{
    lemma_find_active_found(entries, id, 0);
    lemma_find_active_from_least(entries, id, 0);
}

proof fn lemma_find_active_from_least(entries: Seq<nv_entry_t>, id: u8, i: int)
    requires
        0 <= i <= entries.len(),
    ensures
        forall|j: int|
            i <= j < find_active_from(entries, id, i) ==> !((#[trigger] entries[j]).is_active
                && entries[j].id == id),
    decreases entries.len() - i,
{
    lemma_find_active_found(entries, id, i);
    if i < entries.len() {
        lemma_find_active_from_least(entries, id, i + 1);
    }
}

/// The slot that `update_entry` and `remove_entry` act on holds an active
/// entry with the id asked for (searching from slot `i`).
pub proof fn lemma_find_active_found(entries: Seq<nv_entry_t>, id: u8, i: int)
    requires
        0 <= i <= entries.len(),
    ensures
        i <= find_active_from(entries, id, i) <= entries.len(),
        find_active_from(entries, id, i) < entries.len() ==> {
            &&& entries[find_active_from(entries, id, i)].is_active
            &&& entries[find_active_from(entries, id, i)].id == id
        },
    decreases entries.len() - i,
{
    if i < entries.len() {
        lemma_find_active_found(entries, id, i + 1);
    }
}

proof fn lemma_count_all_inactive(entries: Seq<nv_entry_t>, i: int)
    requires
        forall|j: int| 0 <= j < entries.len() ==> !(#[trigger] entries[j]).is_active,
    ensures
        active_count_from(entries, i) == 0,
    decreases entries.len() - i,
{
    if 0 <= i < entries.len() {
        lemma_count_all_inactive(entries, i + 1);
    }
}

impl nv_state_t {
    /// Puts a new entry into the first free slot and counts it. Refused
    /// (`false`, nothing changed) when the count has reached `MAX_ENTRIES` or
    /// no slot is free.
    pub fn add_entry(
        &mut self,
        id: u8,
        category: nv_category_t,
        label: &[u8],
        amount_cents: i64,
    ) -> (added: bool)
        ensures
            added == (old(self).entry_count < MAX_ENTRIES && first_inactive(old(self).entries@)
                < MAX_ENTRIES),
            added ==> {
                let k = first_inactive(old(self).entries@);
                &&& final(self).entries@ == old(self).entries@.update(k, final(self).entries@[k])
                &&& final(self).entries@[k].is_made_of(id, category, label@, amount_cents)
                &&& final(self).entry_count == old(self).entry_count + 1
                &&& final(self).is_locked == old(self).is_locked
            },
            !added ==> *final(self) == *old(self),
            old(self).wf() ==> final(self).wf(),
            old(self).wf() ==> (added <==> old(self).entry_count < MAX_ENTRIES),
            added ==> exists|k: int|
                0 <= k < MAX_ENTRIES && !old(self).entries@[k].is_active && (forall|j: int|
                    0 <= j < k ==> (#[trigger] old(self).entries@[j]).is_active) && (forall|
                    j: int,
                |
                    0 <= j < MAX_ENTRIES && j != k ==> #[trigger] final(self).entries@[j]
                        == old(self).entries@[j]) && final(self).entries@[k].is_made_of(
                    id,
                    category,
                    label@,
                    amount_cents,
                ) && final(self).entries@[k].id == id && final(self).entries@[k].category
                    == category && final(self).entries@[k].amount_cents == amount_cents
                    && final(self).entries@[k].is_active,
            !added && old(self).entry_count < MAX_ENTRIES ==> forall|j: int|
                0 <= j < MAX_ENTRIES ==> (#[trigger] old(self).entries@[j]).is_active,
    {
        proof {
            lemma_first_inactive_is_least_free(old(self).entries@);
        }
        if self.entry_count as usize >= MAX_ENTRIES {
            return false;
        }
        let ghost pre = *self;
        let mut i: usize = 0;
        while i < MAX_ENTRIES
            invariant
                i <= MAX_ENTRIES,
                *self == pre,
                pre == *old(self),
                pre.entry_count < MAX_ENTRIES,
                first_inactive(pre.entries@) == first_inactive_from(pre.entries@, i as int),
            decreases MAX_ENTRIES - i,
        {
            if !self.entries[i].is_active {
                let entry = nv_entry_t::new(id, category, label, amount_cents);
                self.entries[i] = entry;
                self.entry_count += 1;
                proof {
                    lemma_active_count_update(pre.entries@, i as int, entry, 0);
                    assert(self.entries@ =~= pre.entries@.update(i as int, entry));
                    lemma_first_inactive_is_least_free(pre.entries@);
                    assert(first_inactive(pre.entries@) == i);
                }
                return true;
            }
            i += 1;
        }
        proof {
            lemma_no_free_slot(pre.entries@, 0);
            lemma_first_inactive_is_least_free(pre.entries@);
        }
        false
    }

    /// Erases the first active entry with `id` and takes one off the count
    /// (never below zero). `false`, and nothing changed, when there is none.
    pub fn remove_entry(&mut self, id: u8) -> (removed: bool)
        ensures
            removed == (find_active(old(self).entries@, id) < MAX_ENTRIES),
            removed ==> {
                let k = find_active(old(self).entries@, id);
                &&& final(self).entries@ == old(self).entries@.update(k, final(self).entries@[k])
                &&& final(self).entries@[k].is_blank()
                &&& final(self).entries@[k].category == old(self).entries@[k].category
                &&& final(self).entry_count == (if old(self).entry_count > 0 {
                    old(self).entry_count - 1
                } else {
                    0
                })
                &&& final(self).is_locked == old(self).is_locked
            },
            !removed ==> *final(self) == *old(self),
            old(self).wf() ==> final(self).wf(),
            removed ==> exists|k: int|
                0 <= k < MAX_ENTRIES && old(self).entries@[k].is_active && old(self).entries@[k].id
                    == id && (forall|j: int|
                    0 <= j < k ==> !((#[trigger] old(self).entries@[j]).is_active
                        && old(self).entries@[j].id == id)) && (forall|j: int|
                    0 <= j < MAX_ENTRIES && j != k ==> #[trigger] final(self).entries@[j]
                        == old(self).entries@[j]) && final(self).entries@[k].is_blank()
                    && !final(self).entries@[k].is_active,
            !removed ==> forall|j: int|
                0 <= j < MAX_ENTRIES ==> !((#[trigger] old(self).entries@[j]).is_active
                    && old(self).entries@[j].id == id),
    {
        proof {
            lemma_find_active_is_least_match(old(self).entries@, id);
        }
        let ghost pre = *self;
        let mut i: usize = 0;
        while i < MAX_ENTRIES
            invariant
                i <= MAX_ENTRIES,
                *self == pre,
                pre == *old(self),
                find_active(pre.entries@, id) == find_active_from(pre.entries@, id, i as int),
            decreases MAX_ENTRIES - i,
        {
            if self.entries[i].is_active && self.entries[i].id == id {
                self.entries[i].wipe();
                self.entry_count = self.entry_count.saturating_sub(1);
                proof {
                    let e = self.entries@[i as int];
                    lemma_active_count_update(pre.entries@, i as int, e, 0);
                    assert(self.entries@ =~= pre.entries@.update(i as int, e));
                    lemma_find_active_is_least_match(pre.entries@, id);
                    assert(find_active(pre.entries@, id) == i);
                    assert(forall|j: int|
                        0 <= j < MAX_ENTRIES && j != i ==> #[trigger] self.entries@[j]
                            == pre.entries@[j]);
                    if pre.wf() {
                        assert(pre.entry_count >= 1);
                    }
                }
                return true;
            }
            i += 1;
        }
        false
    }

    /// Sets the amount of the first active entry with `id`. `false`, and
    /// nothing changed, when there is none.
    pub fn update_entry(&mut self, id: u8, amount_cents: i64) -> (updated: bool)
        ensures
            updated == (find_active(old(self).entries@, id) < MAX_ENTRIES),
            updated ==> {
                let k = find_active(old(self).entries@, id);
                &&& final(self).entries@ == old(self).entries@.update(
                    k,
                    nv_entry_t { amount_cents: amount_cents, ..old(self).entries@[k] },
                )
                &&& final(self).entry_count == old(self).entry_count
                &&& final(self).is_locked == old(self).is_locked
            },
            !updated ==> *final(self) == *old(self),
            old(self).wf() ==> final(self).wf(),
            updated ==> exists|k: int|
                0 <= k < MAX_ENTRIES && old(self).entries@[k].is_active && old(self).entries@[k].id
                    == id && (forall|j: int|
                    0 <= j < k ==> !((#[trigger] old(self).entries@[j]).is_active
                        && old(self).entries@[j].id == id)) && (forall|j: int|
                    0 <= j < MAX_ENTRIES && j != k ==> #[trigger] final(self).entries@[j]
                        == old(self).entries@[j]) && final(self).entries@[k].amount_cents
                    == amount_cents && final(self).entries@[k].id == id
                    && final(self).entries@[k].is_active,
            !updated ==> forall|j: int|
                0 <= j < MAX_ENTRIES ==> !((#[trigger] old(self).entries@[j]).is_active
                    && old(self).entries@[j].id == id),
    {
        proof {
            lemma_find_active_is_least_match(old(self).entries@, id);
        }
        let ghost pre = *self;
        let mut i: usize = 0;
        while i < MAX_ENTRIES
            invariant
                i <= MAX_ENTRIES,
                *self == pre,
                pre == *old(self),
                find_active(pre.entries@, id) == find_active_from(pre.entries@, id, i as int),
            decreases MAX_ENTRIES - i,
        {
            if self.entries[i].is_active && self.entries[i].id == id {
                self.entries[i].amount_cents = amount_cents;
                proof {
                    let e = self.entries@[i as int];
                    lemma_active_count_update(pre.entries@, i as int, e, 0);
                    assert(self.entries@ =~= pre.entries@.update(i as int, e));
                    lemma_find_active_is_least_match(pre.entries@, id);
                    assert(find_active(pre.entries@, id) == i);
                    assert(forall|j: int|
                        0 <= j < MAX_ENTRIES && j != i ==> #[trigger] self.entries@[j]
                            == pre.entries@[j]);
                }
                return true;
            }
            i += 1;
        }
        false
    }

    /// The `index`-th active entry (from 0), in slot order.
    pub fn entry_at(&self, index: usize) -> (found: Option<&nv_entry_t>)
        ensures
            nth_active(self.entries@, index as nat) < MAX_ENTRIES ==> found == Some(
                &self.entries@[nth_active(self.entries@, index as nat)],
            ),
            nth_active(self.entries@, index as nat) >= MAX_ENTRIES ==> found is None,
            self.wf() ==> (found is Some <==> index < self.entry_count),
            found matches Some(e) ==> e.is_active,
    {
        proof {
            lemma_nth_active_exists(self.entries@, index as nat, 0);
        }
        let mut active_index: usize = 0;
        let mut i: usize = 0;
        while i < MAX_ENTRIES
            invariant
                i <= MAX_ENTRIES,
                active_index <= index,
                active_index <= i,
                nth_active(self.entries@, index as nat) == nth_active_from(
                    self.entries@,
                    (index - active_index) as nat,
                    i as int,
                ),
            decreases MAX_ENTRIES - i,
        {
            if self.entries[i].is_active {
                if active_index == index {
                    proof {
                        lemma_nth_active_exists(self.entries@, index as nat, 0);
                        lemma_nth_active_position(self.entries@, index as nat);
                    }
                    return Some(&self.entries[i]);
                }
                active_index += 1;
            }
            i += 1;
        }
        None
    }

    /// The sum of the active amounts, taken in slot order, each addition held
    /// to the range of `i64`.
    pub fn total_net(&self) -> (total: i64)
        ensures
            total == net_total(self.entries@),
    {
        let mut total: i64 = 0;
        let mut i: usize = 0;
        while i < MAX_ENTRIES
            invariant
                i <= MAX_ENTRIES,
                total == net_total_upto(self.entries@, i as int),
            decreases MAX_ENTRIES - i,
        {
            let entry = &self.entries[i];
            if entry.is_active {
                total = match total.checked_add(entry.amount_cents) {
                    Some(sum) => sum,
                    None => if entry.amount_cents > 0 {
                        i64::MAX
                    } else {
                        i64::MIN
                    },
                };
            }
            i += 1;
        }
        total
    }
}

/// In a well-formed vault the count never exceeds `MAX_ENTRIES`.
pub proof fn lemma_wf_count_bound(state: nv_state_t)
    requires
        state.wf(),
    ensures
        state.entry_count <= MAX_ENTRIES,
{
    lemma_active_count_bound(state.entries@, 0);
}

/// An entry written into slot `k` of a vault where no active entry carries
/// its id is the one that `update_entry` and `remove_entry` then find by that
/// id.
pub proof fn lemma_added_entry_is_found(entries: Seq<nv_entry_t>, k: int, entry: nv_entry_t)
    requires
        0 <= k < entries.len(),
        find_active(entries, entry.id) == entries.len(),
        entry.is_active,
    ensures
        find_active(entries.update(k, entry), entry.id) == k,
{
    lemma_added_entry_is_found_from(entries, k, entry, 0);
}

proof fn lemma_added_entry_is_found_from(
    entries: Seq<nv_entry_t>,
    k: int,
    entry: nv_entry_t,
    i: int,
)
    requires
        0 <= i <= k < entries.len(),
        find_active_from(entries, entry.id, i) == entries.len(),
        entry.is_active,
    ensures
        find_active_from(entries.update(k, entry), entry.id, i) == k,
    decreases k - i,
{
    if i < k {
        lemma_added_entry_is_found_from(entries, k, entry, i + 1);
    }
}

/// Every active entry is listed by `entry_at`: the one in slot `k` comes at
/// the position given by the number of active entries before it, which is
/// below the number of active entries.
pub proof fn lemma_active_entry_is_listed(entries: Seq<nv_entry_t>, k: int)
    requires
        0 <= k < entries.len(),
        entries[k].is_active,
    ensures
        active_count_from(entries, k) <= active_count(entries),
        (active_count(entries) - active_count_from(entries, k)) < active_count(entries),
        nth_active(entries, (active_count(entries) - active_count_from(entries, k)) as nat) == k,
{
    lemma_active_entry_is_listed_from(entries, k, 0);
}

proof fn lemma_active_entry_is_listed_from(entries: Seq<nv_entry_t>, k: int, i: int)
    requires
        0 <= i <= k < entries.len(),
        entries[k].is_active,
    ensures
        active_count_from(entries, k) <= active_count_from(entries, i),
        (active_count_from(entries, i) - active_count_from(entries, k)) < active_count_from(
            entries,
            i,
        ),
        nth_active_from(
            entries,
            (active_count_from(entries, i) - active_count_from(entries, k)) as nat,
            i,
        ) == k,
    decreases k - i,
{
    if i < k {
        lemma_active_entry_is_listed_from(entries, k, i + 1);
    }
}

/// The entry that `entry_at(n)` returns is active and has exactly `n`
/// active entries before it.
pub proof fn lemma_nth_active_position(entries: Seq<nv_entry_t>, n: nat)
    ensures
        nth_active(entries, n) < entries.len() ==> {
            &&& 0 <= nth_active(entries, n)
            &&& entries[nth_active(entries, n)].is_active
            &&& active_count(entries) - active_count_from(entries, nth_active(entries, n)) == n
        },
{
    lemma_nth_active_position_from(entries, n, 0);
}

proof fn lemma_nth_active_position_from(entries: Seq<nv_entry_t>, n: nat, i: int)
    requires
        0 <= i <= entries.len(),
    ensures
        nth_active_from(entries, n, i) < entries.len() ==> {
            &&& i <= nth_active_from(entries, n, i)
            &&& entries[nth_active_from(entries, n, i)].is_active
            &&& active_count_from(entries, i) - active_count_from(
                entries,
                nth_active_from(entries, n, i),
            ) == n
        },
    decreases entries.len() - i,
{
    if i < entries.len() {
        if entries[i].is_active && n > 0 {
            lemma_nth_active_position_from(entries, (n - 1) as nat, i + 1);
        } else if !entries[i].is_active {
            lemma_nth_active_position_from(entries, n, i + 1);
        }
    }
}

/// The amount an entry adds to the exact total.
pub open spec fn contribution(entry: nv_entry_t) -> int {
    if entry.is_active {
        entry.amount_cents as int
    } else {
        0
    }
}

/// Replacing one slot changes the exact total by the difference of what the
/// old and the new entry contribute: adding, updating and removing an entry
/// move the total by exactly its amount.
pub proof fn lemma_plain_total_update(entries: Seq<nv_entry_t>, k: int, entry: nv_entry_t, n: int)
    requires
        0 <= k < entries.len(),
        n <= entries.len(),
    ensures
        plain_total_upto(entries.update(k, entry), n) == plain_total_upto(entries, n) + (if k
            < n {
            contribution(entry) - contribution(entries[k])
        } else {
            0
        }),
    decreases n,
{
    if n > 0 {
        lemma_plain_total_update(entries, k, entry, n - 1);
    }
}

/// While no partial sum leaves the range of `i64`, the held total is the
/// exact total.
pub proof fn lemma_net_total_exact(entries: Seq<nv_entry_t>, n: int)
    requires
        n <= entries.len(),
        forall|j: int|
            0 <= j <= n ==> i64::MIN <= #[trigger] plain_total_upto(entries, j) <= i64::MAX,
    ensures
        net_total_upto(entries, n) == plain_total_upto(entries, n),
    decreases n,
{
    if n > 0 {
        lemma_net_total_exact(entries, n - 1);
        assert(i64::MIN <= plain_total_upto(entries, n) <= i64::MAX);
    }
}

impl Default for nv_state_t {
    fn default() -> (state: Self)
        ensures
            forall|i: int| 0 <= i < MAX_ENTRIES ==> (#[trigger] state.entries@[i]).is_blank(),
            forall|i: int|
                0 <= i < MAX_ENTRIES ==> (#[trigger] state.entries@[i]).category
                    == nv_category_t::NV_CAT_ASSET,
            state.entry_count == 0,
            state.is_locked,
            state.wf(),
    {
        Self::new()
    }
}

} // verus!
