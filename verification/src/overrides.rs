//! Simulation state overrides: per-account balance, nonce, code and storage
//! replacements, their merging, and the nonce an override fixes for a sender.

use vstd::prelude::*;

use crate::keyed::{
    keyed_map, keys_distinct, lemma_keyed_absent, lemma_keyed_at, lemma_keyed_index,
    lemma_keyed_push, lemma_keyed_update,
};
use crate::types::{Address, U256};

verus! {

broadcast use vstd::seq::group_seq_axioms;

/// One storage slot and its value.
#[derive(Debug, Clone, Copy)]
pub struct SlotValue {
    pub slot: [u8; 32],
    pub value: [u8; 32],
}

/// Overrides for one account. `state` replaces the whole storage;
/// `state_diff` replaces only the slots it names.
#[derive(Debug)]
pub struct AccountOverride {
    pub address: Address,
    pub balance: Option<U256>,
    pub nonce: Option<u64>,
    pub code: Option<Vec<u8>>,
    pub state: Option<Vec<SlotValue>>,
    pub state_diff: Option<Vec<SlotValue>>,
}

/// Overrides for a set of accounts (addresses are distinct).
#[derive(Debug)]
pub struct StateOverride {
    pub accounts: Vec<AccountOverride>,
}

/// The key of a slot entry.
pub open spec fn slot_key(e: SlotValue) -> [u8; 32] {
    e.slot
}

/// The key of an account override.
pub open spec fn account_key(a: AccountOverride) -> Address {
    a.address
}

/// A slot list viewed as a map from slot to value.
pub open spec fn slot_map(s: Seq<SlotValue>) -> Map<[u8; 32], [u8; 32]> {
    Map::new(
        |k: [u8; 32]| keyed_map(s, |e: SlotValue| slot_key(e)).dom().contains(k),
        |k: [u8; 32]| keyed_map(s, |e: SlotValue| slot_key(e))[k].value,
    )
}

/// An account override viewed by contents.
pub struct AccountView {
    pub balance: Option<U256>,
    pub nonce: Option<u64>,
    pub code: Option<Seq<u8>>,
    pub state: Option<Map<[u8; 32], [u8; 32]>>,
    pub state_diff: Option<Map<[u8; 32], [u8; 32]>>,
}

/// The contents of an account override.
pub open spec fn account_view(a: AccountOverride) -> AccountView {
    AccountView {
        balance: a.balance,
        nonce: a.nonce,
        code: match a.code {
            Some(c) => Some(c@),
            None => None,
        },
        state: match a.state {
            Some(s) => Some(slot_map(s@)),
            None => None,
        },
        state_diff: match a.state_diff {
            Some(s) => Some(slot_map(s@)),
            None => None,
        },
    }
}

/// Slot lists of an account carry distinct slots.
pub open spec fn account_wf(a: AccountOverride) -> bool {
    &&& (a.state matches Some(s) ==> keys_distinct(s@, |e: SlotValue| slot_key(e)))
    &&& (a.state_diff matches Some(s) ==> keys_distinct(s@, |e: SlotValue| slot_key(e)))
}

/// Account overrides viewed as a map from address to account contents.
pub open spec fn accounts_view(s: Seq<AccountOverride>) -> Map<Address, AccountView> {
    Map::new(
        |k: Address| keyed_map(s, |a: AccountOverride| account_key(a)).dom().contains(k),
        |k: Address| account_view(keyed_map(s, |a: AccountOverride| account_key(a))[k]),
    )
}

impl StateOverride {
    /// Addresses are distinct and every slot list carries distinct slots.
    pub open spec fn wf(&self) -> bool {
        &&& keys_distinct(self.accounts@, |a: AccountOverride| account_key(a))
        &&& forall|i: int| 0 <= i < self.accounts@.len() ==> account_wf(#[trigger] self.accounts@[i])
    }

    /// The overrides viewed as a map from address to account contents.
    pub open spec fn view_map(&self) -> Map<Address, AccountView> {
        accounts_view(self.accounts@)
    }
}

/// Compares two addresses.
pub fn address_eq(a: &Address, b: &Address) -> (r: bool)
    ensures
        r == (*a == *b),
{
    let mut i: usize = 0;
    while i < 20
        invariant
            0 <= i <= 20,
            forall|j: int| 0 <= j < i ==> a[j] == b[j],
        decreases 20 - i,
    {
        if a[i] != b[i] {
            return false;
        }
        i = i + 1;
    }
    assert(*a =~= *b);
    true
}

/// Compares two storage slots.
pub fn slot_eq(a: &[u8; 32], b: &[u8; 32]) -> (r: bool)
    ensures
        r == (*a == *b),
{
    let mut i: usize = 0;
    while i < 32
        invariant
            0 <= i <= 32,
            forall|j: int| 0 <= j < i ==> a[j] == b[j],
        decreases 32 - i,
    {
        if a[i] != b[i] {
            return false;
        }
        i = i + 1;
    }
    assert(*a =~= *b);
    true
}

/// Copies a slot list.
pub fn copy_slots(s: &Vec<SlotValue>) -> (r: Vec<SlotValue>)
    ensures
        r@ == s@,
{
    let mut r: Vec<SlotValue> = Vec::new();
    let mut i: usize = 0;
    while i < s.len()
        invariant
            0 <= i <= s@.len(),
            r@ == s@.take(i as int),
        decreases s@.len() - i,
    {
        r.push(s[i]);
        i = i + 1;
        assert(r@ =~= s@.take(i as int));
    }
    assert(s@.take(s@.len() as int) =~= s@);
    r
}

fn copy_opt_slots(s: &Option<Vec<SlotValue>>) -> (r: Option<Vec<SlotValue>>)
    ensures
        r is Some <==> s is Some,
        r matches Some(v) ==> v@ == s.unwrap()@,
{
    match s {
        Some(v) => Some(copy_slots(v)),
        None => None,
    }
}

impl AccountOverride {
    /// A copy of the account override.
    pub fn duplicate(&self) -> (r: AccountOverride)
        ensures
            r.address == self.address,
            account_view(r) == account_view(*self),
            account_wf(*self) ==> account_wf(r),
    {
        let r = AccountOverride {
            address: self.address,
            balance: self.balance,
            nonce: self.nonce,
            code: crate::types::clone_opt_bytes(&self.code),
            state: copy_opt_slots(&self.state),
            state_diff: copy_opt_slots(&self.state_diff),
        };
        proof {
            assert(account_view(r).code =~= account_view(*self).code);
        }
        r
    }
}

impl StateOverride {
    /// A copy of the overrides.
    pub fn duplicate(&self) -> (r: StateOverride)
        requires
            self.wf(),
        ensures
            r.wf(),
            r.view_map() == self.view_map(),
    {
        let mut out: Vec<AccountOverride> = Vec::new();
        let mut i: usize = 0;
        while i < self.accounts.len()
            invariant
                self.wf(),
                0 <= i <= self.accounts@.len(),
                out@.len() == i,
                forall|j: int|
                    0 <= j < i ==> (#[trigger] out@[j]).address == self.accounts@[j].address
                        && account_view(out@[j]) == account_view(self.accounts@[j]) && account_wf(
                        out@[j],
                    ),
            decreases self.accounts@.len() - i,
        {
            out.push(self.accounts[i].duplicate());
            i = i + 1;
        }
        let r = StateOverride { accounts: out };
        proof {
            let key = |a: AccountOverride| account_key(a);
            assert forall|a: int, b: int|
                #![trigger key(r.accounts@[a]), key(r.accounts@[b])]
                0 <= a < r.accounts@.len() && 0 <= b < r.accounts@.len() && a != b implies key(
                    r.accounts@[a],
                ) != key(r.accounts@[b]) by {
                assert(key(r.accounts@[a]) == key(self.accounts@[a]));
                assert(key(r.accounts@[b]) == key(self.accounts@[b]));
            }
            assert forall|k: Address| #[trigger] r.view_map().dom().contains(k) == self.view_map().dom().contains(k) by {
                if r.view_map().dom().contains(k) {
                    let j = lemma_keyed_index(r.accounts@, key, k);
                    lemma_keyed_at(self.accounts@, key, j);
                }
                if self.view_map().dom().contains(k) {
                    let j = lemma_keyed_index(self.accounts@, key, k);
                    lemma_keyed_at(r.accounts@, key, j);
                }
            }
            assert forall|k: Address| #[trigger] r.view_map().dom().contains(k) implies r.view_map()[k]
                == self.view_map()[k] by {
                let j = lemma_keyed_index(r.accounts@, key, k);
                lemma_keyed_at(self.accounts@, key, j);
            }
            assert(r.view_map() =~= self.view_map());
        }
        r
    }
}

/// Index of the override for `address`.
pub fn find_account(o: &StateOverride, address: &Address) -> (r: Option<usize>)
    requires
        o.wf(),
    ensures
        r matches Some(i) ==> i < o.accounts@.len() && o.accounts@[i as int].address == *address
            && o.view_map().dom().contains(*address) && o.view_map()[*address] == account_view(
            o.accounts@[i as int],
        ),
        r is None ==> !o.view_map().dom().contains(*address),
{
    let mut i: usize = 0;
    while i < o.accounts.len()
        invariant
            o.wf(),
            0 <= i <= o.accounts@.len(),
            forall|j: int| 0 <= j < i ==> (#[trigger] o.accounts@[j]).address != *address,
        decreases o.accounts@.len() - i,
    {
        if address_eq(&o.accounts[i].address, address) {
            proof {
                lemma_keyed_at(o.accounts@, |a: AccountOverride| account_key(a), i as int);
            }
            return Some(i);
        }
        i = i + 1;
    }
    proof {
        lemma_keyed_absent(o.accounts@, |a: AccountOverride| account_key(a), *address);
    }
    None
}

/// The nonce the overrides fix for `sender`, if any.
pub open spec fn spec_override_nonce(o: Map<Address, AccountView>, sender: Address) -> Option<u64> {
    if o.dom().contains(sender) {
        o[sender].nonce
    } else {
        None
    }
}

/// The nonce the overrides fix for `sender`, if any.
pub fn sender_nonce_from_overrides(o: &StateOverride, sender: &Address) -> (r: Option<u64>)
    requires
        o.wf(),
    ensures
        r == spec_override_nonce(o.view_map(), *sender),
{
    match find_account(o, sender) {
        Some(i) => o.accounts[i].nonce,
        None => None,
    }
}

// ---------------------------------------------------------------------------
// Merging.
// ---------------------------------------------------------------------------

/// `base` with the fields set in `overlay` taking precedence. A full `state`
/// in the overlay replaces storage (and drops the base's `state_diff`); an
/// overlay `state_diff` is written into the base's `state` when it has one,
/// else into its `state_diff`.
pub open spec fn merge_account(base: AccountView, overlay: AccountView) -> AccountView {
    let storage: (Option<Map<[u8; 32], [u8; 32]>>, Option<Map<[u8; 32], [u8; 32]>>) =
        match overlay.state {
        Some(_) => (overlay.state, None),
        None => match overlay.state_diff {
            Some(d) => match base.state {
                Some(bs) => (Some(bs.union_prefer_right(d)), base.state_diff),
                None => {
                    let bd = match base.state_diff {
                        Some(x) => x,
                        None => Map::empty(),
                    };
                    (None, Some(bd.union_prefer_right(d)))
                },
            },
            None => (base.state, base.state_diff),
        },
    };
    AccountView {
        balance: if overlay.balance is Some {
            overlay.balance
        } else {
            base.balance
        },
        nonce: if overlay.nonce is Some {
            overlay.nonce
        } else {
            base.nonce
        },
        code: if overlay.code is Some {
            overlay.code
        } else {
            base.code
        },
        state: storage.0,
        state_diff: storage.1,
    }
}

/// `overlay` merged into `base`, account by account.
pub open spec fn merged_view(base: Map<Address, AccountView>, overlay: Map<Address, AccountView>) -> Map<
    Address,
    AccountView,
> {
    Map::new(
        |a: Address| base.dom().contains(a) || overlay.dom().contains(a),
        |a: Address|
            if overlay.dom().contains(a) {
                if base.dom().contains(a) {
                    merge_account(base[a], overlay[a])
                } else {
                    overlay[a]
                }
            } else {
                base[a]
            },
    )
}

/// Overlay precedence, read back through the sender nonce: after merging,
/// the nonce an overrides set fixes for `sender` is the overlay's when the
/// overlay fixes one, and otherwise the base's.
pub proof fn lemma_merged_nonce(
    base: Map<Address, AccountView>,
    overlay: Map<Address, AccountView>,
    sender: Address,
)
    ensures
        spec_override_nonce(merged_view(base, overlay), sender) == (if spec_override_nonce(
            overlay,
            sender,
        ) is Some {
            spec_override_nonce(overlay, sender)
        } else {
            spec_override_nonce(base, sender)
        }),
{
}

/// Overlay precedence, field by field: after merging, an account is present
/// when either side has it. Its balance, nonce and code are the overlay's
/// whenever the overlay sets them, and otherwise the base's. A full overlay
/// storage replaces the base's storage and leaves no diff; an overlay storage
/// diff sets its slots over the base's storage (its full storage when it has
/// one, else its diff) and leaves every other base slot as it was.
pub proof fn lemma_merged_account_fields(
    base: Map<Address, AccountView>,
    overlay: Map<Address, AccountView>,
    a: Address,
)
    ensures
        merged_view(base, overlay).dom().contains(a) <==> (base.dom().contains(a)
            || overlay.dom().contains(a)),
        overlay.dom().contains(a) ==> {
            let m = merged_view(base, overlay)[a];
            let o = overlay[a];
            &&& o.balance is Some ==> m.balance == o.balance
            &&& o.nonce is Some ==> m.nonce == o.nonce
            &&& o.code is Some ==> m.code == o.code
            &&& o.state is Some ==> m.state == o.state
        },
        base.dom().contains(a) && !overlay.dom().contains(a) ==> merged_view(base, overlay)[a]
            == base[a],
        base.dom().contains(a) && overlay.dom().contains(a) ==> {
            let m = merged_view(base, overlay)[a];
            let o = overlay[a];
            let b = base[a];
            &&& o.balance is None ==> m.balance == b.balance
            &&& o.nonce is None ==> m.nonce == b.nonce
            &&& o.code is None ==> m.code == b.code
            &&& o.state is Some ==> m.state_diff is None
            &&& o.state is None && o.state_diff is None ==> m.state == b.state && m.state_diff
                == b.state_diff
            &&& o.state is None && o.state_diff is Some && b.state is Some ==> {
                let d = o.state_diff.unwrap();
                let bs = b.state.unwrap();
                &&& m.state is Some && m.state_diff == b.state_diff
                &&& forall|k: [u8; 32]| #[trigger] d.dom().contains(k) ==> m.state.unwrap().dom().contains(k)
                    && m.state.unwrap()[k] == d[k]
                &&& forall|k: [u8; 32]|
                    !d.dom().contains(k) ==> (#[trigger] m.state.unwrap().dom().contains(k)
                        <==> bs.dom().contains(k)) && (bs.dom().contains(k) ==> m.state.unwrap()[k]
                        == bs[k])
            }
            &&& o.state is None && o.state_diff is Some && b.state is None ==> {
                let d = o.state_diff.unwrap();
                &&& m.state is None && m.state_diff is Some
                &&& forall|k: [u8; 32]| #[trigger] d.dom().contains(k) ==> m.state_diff.unwrap().dom().contains(k)
                    && m.state_diff.unwrap()[k] == d[k]
                &&& b.state_diff matches Some(bd) ==> forall|k: [u8; 32]|
                    !d.dom().contains(k) && #[trigger] bd.dom().contains(k) ==> m.state_diff.unwrap().dom().contains(k)
                        && m.state_diff.unwrap()[k] == bd[k]
            }
        },
{
}

/// Sets slot `e.slot` to `e.value`.
pub(crate) fn put_slot(v: &mut Vec<SlotValue>, e: SlotValue)
    requires
        keys_distinct(old(v)@, |e: SlotValue| slot_key(e)),
    ensures
        keys_distinct(final(v)@, |e: SlotValue| slot_key(e)),
        slot_map(final(v)@) == slot_map(old(v)@).insert(e.slot, e.value),
{
    let ghost before = v@;
    let mut i: usize = 0;
    while i < v.len()
        invariant
            before == v@,
            before == old(v)@,
            keys_distinct(before, |e: SlotValue| slot_key(e)),
            0 <= i <= v@.len(),
            forall|j: int| 0 <= j < i ==> (#[trigger] v@[j]).slot != e.slot,
        decreases v@.len() - i,
    {
        if slot_eq(&v[i].slot, &e.slot) {
            v.set(i, e);
            proof {
                assert(v@ =~= before.update(i as int, e));
                lemma_keyed_update(before, |e: SlotValue| slot_key(e), i as int, e);
                assert(slot_map(v@) =~= slot_map(before).insert(e.slot, e.value));
            }
            return;
        }
        i = i + 1;
    }
    proof {
        lemma_keyed_absent(before, |e: SlotValue| slot_key(e), e.slot);
        lemma_keyed_push(before, |e: SlotValue| slot_key(e), e);
    }
    v.push(e);
    proof {
        assert(slot_map(v@) =~= slot_map(before).insert(e.slot, e.value));
    }
}

/// Writes every slot of `d` into `v`.
fn put_slots(v: &mut Vec<SlotValue>, d: &Vec<SlotValue>)
    requires
        keys_distinct(old(v)@, |e: SlotValue| slot_key(e)),
        keys_distinct(d@, |e: SlotValue| slot_key(e)),
    ensures
        keys_distinct(final(v)@, |e: SlotValue| slot_key(e)),
        slot_map(final(v)@) == slot_map(old(v)@).union_prefer_right(slot_map(d@)),
{
    let ghost start = slot_map(v@);
    let mut i: usize = 0;
    while i < d.len()
        invariant
            keys_distinct(v@, |e: SlotValue| slot_key(e)),
            keys_distinct(d@, |e: SlotValue| slot_key(e)),
            0 <= i <= d@.len(),
            slot_map(v@) == start.union_prefer_right(slot_map(d@.take(i as int))),
        decreases d@.len() - i,
    {
        let e = d[i];
        put_slot(v, e);
        proof {
            let t = d@.take(i as int);
            let t1 = d@.take(i + 1);
            assert(t1 =~= t.push(e));
            assert(keys_distinct(t, |e: SlotValue| slot_key(e))) by {
                assert forall|a: int, b: int|
                    #![trigger slot_key(t[a]), slot_key(t[b])]
                    0 <= a < t.len() && 0 <= b < t.len() && a != b implies slot_key(t[a])
                    != slot_key(t[b]) by {
                    assert(t[a] == d@[a] && t[b] == d@[b]);
                    if slot_key(t[a]) == slot_key(t[b]) {
                        crate::keyed::lemma_keyed_same(d@, |e: SlotValue| slot_key(e), a, b);
                    }
                }
            }
            assert(!keyed_map(t, |e: SlotValue| slot_key(e)).dom().contains(e.slot)) by {
                if keyed_map(t, |e: SlotValue| slot_key(e)).dom().contains(e.slot) {
                    let j = lemma_keyed_index(t, |e: SlotValue| slot_key(e), e.slot);
                    assert(t[j] == d@[j]);
                    crate::keyed::lemma_keyed_same(d@, |e: SlotValue| slot_key(e), j, i as int);
                }
            }
            lemma_keyed_push(t, |e: SlotValue| slot_key(e), e);
            assert(slot_map(t1) =~= slot_map(t).insert(e.slot, e.value));
            assert(slot_map(v@) =~= start.union_prefer_right(slot_map(t1)));
        }
        i = i + 1;
    }
    proof {
        assert(d@.take(d@.len() as int) =~= d@);
    }
}

/// Merges overlay account `o` into base account `b` (same address).
fn merge_account_into(b: &mut AccountOverride, o: &AccountOverride)
    requires
        account_wf(*old(b)),
        account_wf(*o),
    ensures
        final(b).address == old(b).address,
        account_wf(*final(b)),
        account_view(*final(b)) == merge_account(account_view(*old(b)), account_view(*o)),
{
    if o.state.is_some() {
        b.state = copy_opt_slots(&o.state);
        b.state_diff = None;
    } else if let Some(d) = &o.state_diff {
        if let Some(bs) = &mut b.state {
            put_slots(bs, d);
        } else {
            let mut bd = match b.state_diff.take() {
                Some(x) => x,
                None => Vec::new(),
            };
            proof {
                crate::keyed::lemma_keyed_empty(|e: SlotValue| slot_key(e));
                assert(slot_map(Seq::<SlotValue>::empty()) =~= Map::<[u8; 32], [u8; 32]>::empty());
            }
            put_slots(&mut bd, d);
            b.state_diff = Some(bd);
        }
    }
    if o.nonce.is_some() {
        b.nonce = o.nonce;
    }
    if o.balance.is_some() {
        b.balance = o.balance;
    }
    if o.code.is_some() {
        b.code = crate::types::clone_opt_bytes(&o.code);
    }
    proof {
        assert(account_view(*final(b)).code =~= merge_account(account_view(*old(b)), account_view(*o)).code);
    }
}

/// Merges `overlay` into `base`: accounts new to `base` are added, and
/// accounts in both are merged with the overlay taking precedence.
pub fn merge_overrides(base: &mut StateOverride, overlay: &StateOverride)
    requires
        old(base).wf(),
        overlay.wf(),
    ensures
        final(base).wf(),
        final(base).view_map() == merged_view(old(base).view_map(), overlay.view_map()),
{
    let ghost b0 = base.view_map();
    let ghost ov = overlay.accounts@;
    let mut i: usize = 0;
    while i < overlay.accounts.len()
        invariant
            base.wf(),
            overlay.wf(),
            ov == overlay.accounts@,
            0 <= i <= ov.len(),
            base.view_map() == merged_view(b0, accounts_view(ov.take(i as int))),
        decreases ov.len() - i,
    {
        let o = &overlay.accounts[i];
        let ghost pv = accounts_view(ov.take(i as int));
        let ghost cur = base.view_map();
        proof {
            let t = ov.take(i as int);
            let key = |a: AccountOverride| account_key(a);
            assert(keys_distinct(t, key)) by {
                assert forall|x: int, y: int|
                    #![trigger key(t[x]), key(t[y])]
                    0 <= x < t.len() && 0 <= y < t.len() && x != y implies key(t[x]) != key(t[y]) by {
                    assert(t[x] == ov[x] && t[y] == ov[y]);
                }
            }
            assert(!keyed_map(t, key).dom().contains(o.address)) by {
                if keyed_map(t, key).dom().contains(o.address) {
                    let j = lemma_keyed_index(t, key, o.address);
                    assert(t[j] == ov[j]);
                    crate::keyed::lemma_keyed_same(ov, key, j, i as int);
                }
            }
            assert(ov.take(i + 1) =~= t.push(*o));
            lemma_keyed_push(t, key, *o);
            assert(accounts_view(ov.take(i + 1)) =~= pv.insert(o.address, account_view(*o)));
            assert(account_wf(*o));
        }
        match find_account(base, &o.address) {
            Some(j) => {
                let ghost bacc = base.accounts@;
                let mut acct = base.accounts.remove(j);
                merge_account_into(&mut acct, o);
                base.accounts.insert(j, acct);
                proof {
                    let key = |a: AccountOverride| account_key(a);
                    assert(base.accounts@ =~= bacc.update(j as int, acct));
                    lemma_keyed_update(bacc, key, j as int, acct);
                    assert forall|x: int| 0 <= x < base.accounts@.len() implies account_wf(
                        #[trigger] base.accounts@[x],
                    ) by {
                        if x != j {
                            assert(base.accounts@[x] == bacc[x]);
                        }
                    }
                    assert(base.view_map() =~= cur.insert(
                        o.address,
                        merge_account(cur[o.address], account_view(*o)),
                    ));
                    assert(base.view_map() =~= merged_view(b0, accounts_view(ov.take(i + 1))));
                }
            },
            None => {
                let acct = o.duplicate();
                let ghost bacc = base.accounts@;
                proof {
                    let key = |a: AccountOverride| account_key(a);
                    lemma_keyed_push(bacc, key, acct);
                }
                base.accounts.push(acct);
                proof {
                    assert forall|x: int| 0 <= x < base.accounts@.len() implies account_wf(
                        #[trigger] base.accounts@[x],
                    ) by {
                        if x < bacc.len() {
                            assert(base.accounts@[x] == bacc[x]);
                        }
                    }
                    assert(base.view_map() =~= cur.insert(o.address, account_view(*o)));
                    assert(base.view_map() =~= merged_view(b0, accounts_view(ov.take(i + 1))));
                }
            },
        }
        i = i + 1;
    }
    proof {
        assert(ov.take(ov.len() as int) =~= ov);
    }
}

/// Merges `overlay` into `base` like [`merge_overrides`], consuming the overlay.
pub fn merge_overrides_owned(base: &mut StateOverride, overlay: StateOverride)
    requires
        old(base).wf(),
        overlay.wf(),
    ensures
        final(base).wf(),
        final(base).view_map() == merged_view(old(base).view_map(), overlay.view_map()),
{
    merge_overrides(base, &overlay);
}

} // verus!
