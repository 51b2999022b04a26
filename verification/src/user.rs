//! User accounts: balances per asset and funds locked by resting orders.
//!
//! `available = total - locked`, where `locked` sums the lock entries of the
//! asset. Placing an order locks funds, cancelling releases them, and a fill
//! converts locked funds of one asset into a credit of another.
use vstd::prelude::*;

use crate::types::{asset_index, Asset, OrderId, Quantity, UserId};

verus! {

/// The 128-bit value of a version-4 UUID: its version nibble is 4 and its
/// variant bits are `10`.
pub open spec fn is_v4_value(id: u128) -> bool {
    &&& (id >> 76u128) & 0xf == 4
    &&& (id >> 62u128) & 3 == 2
}

/// A fresh random user id: the 128-bit value of a version-4 UUID made by
/// `uuid::Uuid::new_v4`. The random bits depend on chance; what is claimed
/// holds of every outcome: `new_v4` masks the random value and sets the
/// version nibble to 4 and the variant bits to `10`, and `as_u128` gives
/// the value back as it was built by `from_u128`.
#[verifier::external_body]
fn random_user_id() -> (id: UserId)
    ensures
        is_v4_value(id),
{
    uuid::Uuid::new_v4().as_u128()
}

/// Funds locked by a single resting order.
#[derive(Debug, Clone, Copy, PartialEq, Eq, Structural)]
pub struct LockEntry {
    /// The asset being locked.
    pub asset: Asset,
    /// Number of units locked.
    pub amount: Quantity,
}

/// Contribution of a lock entry to the locked total of asset `a`.
pub open spec fn lock_part(e: LockEntry, a: Asset) -> int {
    if e.asset == a {
        e.amount as int
    } else {
        0
    }
}

/// The lock entry of order `k` in a lock table.
pub open spec fn lookup(s: Seq<(OrderId, LockEntry)>, k: OrderId) -> Option<LockEntry>
    decreases s.len(),
{
    if s.len() == 0 {
        None
    } else if s.last().0 == k {
        Some(s.last().1)
    } else {
        lookup(s.drop_last(), k)
    }
}

/// Sum of the amounts locked in asset `a` in a lock table.
pub open spec fn total(s: Seq<(OrderId, LockEntry)>, a: Asset) -> int
    decreases s.len(),
{
    if s.len() == 0 {
        0
    } else {
        total(s.drop_last(), a) + lock_part(s.last().1, a)
    }
}

/// No order id occurs twice in a lock table.
pub open spec fn keys_unique(s: Seq<(OrderId, LockEntry)>) -> bool {
    forall|i: int, j: int| 0 <= i < j < s.len() ==> s[i].0 != s[j].0
}

/// Position of order `k` in a lock table (the last one), or -1.
pub open spec fn key_pos(s: Seq<(OrderId, LockEntry)>, k: OrderId) -> int
    decreases s.len(),
{
    if s.len() == 0 {
        -1
    } else if s.last().0 == k {
        s.len() - 1
    } else {
        key_pos(s.drop_last(), k)
    }
}

/// The lock table with the lock of order `k` set to `e`: in place when `k`
/// has one, else appended.
pub open spec fn table_set(s: Seq<(OrderId, LockEntry)>, k: OrderId, e: LockEntry) -> Seq<(OrderId, LockEntry)> {
    if key_pos(s, k) >= 0 {
        s.update(key_pos(s, k), (k, e))
    } else {
        s.push((k, e))
    }
}

/// The lock table without the lock of order `k`.
pub open spec fn table_remove(s: Seq<(OrderId, LockEntry)>, k: OrderId) -> Seq<(OrderId, LockEntry)> {
    if key_pos(s, k) >= 0 {
        s.remove(key_pos(s, k))
    } else {
        s
    }
}

proof fn lemma_key_pos(s: Seq<(OrderId, LockEntry)>, k: OrderId)
    requires
        keys_unique(s),
    ensures
        -1 <= key_pos(s, k) < s.len(),
        key_pos(s, k) >= 0 ==> s[key_pos(s, k)].0 == k,
        forall|i: int| 0 <= i < s.len() && s[i].0 == k ==> key_pos(s, k) == i,
        key_pos(s, k) < 0 <==> lookup(s, k) is None,
    decreases s.len(),
{
    if s.len() > 0 {
        lemma_key_pos(s.drop_last(), k);
        if s.last().0 != k {
            assert forall|i: int| 0 <= i < s.len() && s[i].0 == k implies key_pos(s, k) == i by {
                assert(i < s.len() - 1);
                assert(s.drop_last()[i] == s[i]);
            }
        }
    }
}

proof fn lemma_total_nonneg(s: Seq<(OrderId, LockEntry)>, a: Asset)
    ensures
        total(s, a) >= 0,
    decreases s.len(),
{
    if s.len() > 0 {
        lemma_total_nonneg(s.drop_last(), a);
    }
}

proof fn lemma_lookup_index(s: Seq<(OrderId, LockEntry)>, i: int)
    requires
        keys_unique(s),
        0 <= i < s.len(),
    ensures
        lookup(s, s[i].0) == Some(s[i].1),
    decreases s.len(),
{
    if i < s.len() - 1 {
        lemma_lookup_index(s.drop_last(), i);
    }
}

proof fn lemma_lookup_absent(s: Seq<(OrderId, LockEntry)>, k: OrderId)
    requires
        forall|i: int| 0 <= i < s.len() ==> s[i].0 != k,
    ensures
        lookup(s, k) is None,
    decreases s.len(),
{
    if s.len() > 0 {
        lemma_lookup_absent(s.drop_last(), k);
    }
}

proof fn lemma_lookup_some(s: Seq<(OrderId, LockEntry)>, k: OrderId)
    requires
        lookup(s, k) is Some,
    ensures
        exists|i: int| 0 <= i < s.len() && s[i].0 == k,
    decreases s.len(),
{
    if s.last().0 != k {
        lemma_lookup_some(s.drop_last(), k);
        let i = choose|i: int| 0 <= i < s.drop_last().len() && s.drop_last()[i].0 == k;
        assert(s[i].0 == k);
    }
}

proof fn lemma_update(s: Seq<(OrderId, LockEntry)>, i: int, e: LockEntry, k: OrderId, a: Asset)
    requires
        keys_unique(s),
        0 <= i < s.len(),
    ensures
        keys_unique(s.update(i, (s[i].0, e))),
        lookup(s.update(i, (s[i].0, e)), k) == if k == s[i].0 {
            Some(e)
        } else {
            lookup(s, k)
        },
        total(s.update(i, (s[i].0, e)), a) == total(s, a) - lock_part(s[i].1, a) + lock_part(e, a),
    decreases s.len(),
{
    let t = s.update(i, (s[i].0, e));
    if i == s.len() - 1 {
        assert(t.drop_last() =~= s.drop_last());
    } else {
        assert(t.drop_last() =~= s.drop_last().update(i, (s[i].0, e)));
        lemma_update(s.drop_last(), i, e, k, a);
    }
}

/// Releasing the lock of order `id` leaves the account without a lock
/// under `id`.
pub proof fn lemma_unlock_removes(v: UserView, id: OrderId)
    requires
        keys_unique(v.locks),
    ensures
        lookup(unlock_spec(v, id).locks, id) is None,
{
    lemma_key_pos(v.locks, id);
    if key_pos(v.locks, id) >= 0 {
        lemma_remove(v.locks, key_pos(v.locks, id), id, Asset::ETH);
    }
}

/// Releasing the lock of order `id` keeps the lock table keyed uniquely and
/// adds no lock.
pub proof fn lemma_unlock_keeps(v: UserView, id: OrderId, k: OrderId)
    requires
        keys_unique(v.locks),
    ensures
        keys_unique(unlock_spec(v, id).locks),
        lookup(v.locks, k) is None ==> lookup(unlock_spec(v, id).locks, k) is None,
{
    lemma_key_pos(v.locks, id);
    if key_pos(v.locks, id) >= 0 {
        lemma_remove(v.locks, key_pos(v.locks, id), k, Asset::ETH);
    }
}

/// Setting the lock of order `k` keeps the table keyed uniquely and only
/// changes the lock of `k`.
pub proof fn lemma_table_set(s: Seq<(OrderId, LockEntry)>, k: OrderId, e: LockEntry, x: OrderId)
    requires
        keys_unique(s),
    ensures
        keys_unique(table_set(s, k, e)),
        lookup(table_set(s, k, e), x) == if x == k {
            Some(e)
        } else {
            lookup(s, x)
        },
{
    lemma_key_pos(s, k);
    if key_pos(s, k) >= 0 {
        lemma_update(s, key_pos(s, k), e, x, Asset::ETH);
    } else {
        let t = s.push((k, e));
        assert(t.drop_last() =~= s);
        assert forall|i: int, j: int| 0 <= i < j < t.len() implies t[i].0 != t[j].0 by {
            if j == s.len() {
                if s[i].0 == k {
                    lemma_lookup_index(s, i);
                }
            }
        }
    }
}

/// Applying one side of a fill keeps the lock table keyed uniquely and adds
/// no lock.
pub proof fn lemma_apply_fill_keys(v: UserView, id: OrderId, da: Asset, dq: Quantity, ca: Asset, cq: Quantity, x: OrderId)
    requires
        keys_unique(v.locks),
        apply_fill_spec(v, id, da, dq, ca, cq) is Some,
    ensures
        keys_unique(apply_fill_spec(v, id, da, dq, ca, cq).unwrap().locks),
        lookup(apply_fill_spec(v, id, da, dq, ca, cq).unwrap().locks, x) is Some ==> lookup(v.locks, x) is Some,
{
    let e = lookup(v.locks, id).unwrap();
    if e.amount == dq {
        lemma_unlock_keeps(v, id, x);
    } else {
        lemma_table_set(v.locks, id, LockEntry { asset: da, amount: (e.amount - dq) as Quantity }, x);
    }
}

/// Locking funds for order `id` keeps the lock table keyed uniquely and adds
/// no lock but that of `id`.
pub proof fn lemma_lock_keys(v: UserView, id: OrderId, a: Asset, amount: Quantity, x: OrderId)
    requires
        keys_unique(v.locks),
        lock_spec(v, id, a, amount) is Some,
    ensures
        keys_unique(lock_spec(v, id, a, amount).unwrap().locks),
        lookup(lock_spec(v, id, a, amount).unwrap().locks, x) is Some ==> x == id || lookup(v.locks, x) is Some,
{
    lemma_table_set(v.locks, id, LockEntry { asset: a, amount }, x);
}

proof fn lemma_remove(s: Seq<(OrderId, LockEntry)>, i: int, k: OrderId, a: Asset)
    requires
        keys_unique(s),
        0 <= i < s.len(),
    ensures
        keys_unique(s.remove(i)),
        lookup(s.remove(i), k) == if k == s[i].0 {
            None
        } else {
            lookup(s, k)
        },
        total(s.remove(i), a) == total(s, a) - lock_part(s[i].1, a),
    decreases s.len(),
{
    let t = s.remove(i);
    if i == s.len() - 1 {
        assert(t =~= s.drop_last());
        if k == s[i].0 {
            lemma_lookup_absent(t, k);
        }
    } else {
        assert(t.drop_last() =~= s.drop_last().remove(i));
        lemma_remove(s.drop_last(), i, k, a);
    }
}

/// The lock entries of a user, keyed by order id.
#[derive(Debug, Clone)]
pub struct LockTable {
    entries: Vec<(OrderId, LockEntry)>,
}

impl LockTable {
    /// Order ids are unique in the table.
    pub closed spec fn wf(&self) -> bool {
        keys_unique(self.entries@)
    }

    /// The lock entry of order `id`, if any.
    pub closed spec fn lock_of(&self, id: OrderId) -> Option<LockEntry> {
        lookup(self.entries@, id)
    }

    /// Sum of the amounts locked in asset `a`.
    pub closed spec fn locked_total(&self, a: Asset) -> int {
        total(self.entries@, a)
    }

    /// Number of lock entries.
    pub closed spec fn count(&self) -> nat {
        self.entries@.len()
    }

    /// An empty table.
    pub fn new() -> (t: LockTable)
        ensures
            t.wf(),
            t.count() == 0,
            forall|id: OrderId| t.lock_of(id) is None,
            forall|a: Asset| t.locked_total(a) == 0,
    {
        LockTable { entries: Vec::new() }
    }

    /// Number of lock entries.
    pub fn len(&self) -> (n: usize)
        ensures
            n == self.count(),
    {
        self.entries.len()
    }

    fn find(&self, id: OrderId) -> (r: Option<usize>)
        requires
            self.wf(),
        ensures
            match r {
                Some(i) => i < self.entries@.len() && self.entries@[i as int].0 == id
                    && self.lock_of(id) == Some(self.entries@[i as int].1),
                None => self.lock_of(id) is None,
            },
    {
        let mut i: usize = 0;
        while i < self.entries.len()
            invariant
                i <= self.entries@.len(),
                keys_unique(self.entries@),
                forall|j: int| 0 <= j < i ==> self.entries@[j].0 != id,
            decreases self.entries@.len() - i,
        {
            if self.entries[i].0 == id {
                proof {
                    lemma_lookup_index(self.entries@, i as int);
                }
                return Some(i);
            }
            i = i + 1;
        }
        proof {
            lemma_lookup_absent(self.entries@, id);
        }
        None
    }

    /// Whether order `id` has a lock entry.
    pub fn contains_key(&self, id: &OrderId) -> (b: bool)
        requires
            self.wf(),
        ensures
            b == self.lock_of(*id) is Some,
    {
        self.find(*id).is_some()
    }

    /// The lock entry of order `id`, if any.
    pub fn get(&self, id: &OrderId) -> (r: Option<&LockEntry>)
        requires
            self.wf(),
        ensures
            match r {
                Some(e) => self.lock_of(*id) == Some(*e),
                None => self.lock_of(*id) is None,
            },
    {
        match self.find(*id) {
            Some(i) => Some(&self.entries[i].1),
            None => None,
        }
    }

    /// Sum of the amounts locked in `asset`, given that it fits a quantity.
    fn sum_for(&self, asset: Asset) -> (r: Quantity)
        requires
            self.locked_total(asset) <= u32::MAX,
        ensures
            r == self.locked_total(asset),
    {
        let mut sum: u32 = 0;
        let mut i: usize = 0;
        while i < self.entries.len()
            invariant
                i <= self.entries@.len(),
                sum == total(self.entries@.take(i as int), asset),
                total(self.entries@, asset) <= u32::MAX,
            decreases self.entries@.len() - i,
        {
            let ghost s = self.entries@;
            assert(s.take(i + 1).drop_last() =~= s.take(i as int));
            proof {
                lemma_total_prefix(s, i as int + 1, asset);
                lemma_total_nonneg(s.skip(i + 1), asset);
            }
            if self.entries[i].1.asset == asset {
                sum = sum + self.entries[i].1.amount;
            }
            i = i + 1;
        }
        assert(self.entries@.take(i as int) =~= self.entries@);
        sum
    }

    /// Sets the lock of order `id` (replacing any previous entry of `id`).
    fn set(&mut self, id: OrderId, e: LockEntry)
        requires
            old(self).wf(),
        ensures
            final(self).wf(),
            final(self).entries@ == table_set(old(self).entries@, id, e),
            final(self).lock_of(id) == Some(e),
            forall|k: OrderId| k != id ==> final(self).lock_of(k) == old(self).lock_of(k),
            forall|a: Asset|
                final(self).locked_total(a) == old(self).locked_total(a) - (match old(self).lock_of(id) {
                    Some(p) => lock_part(p, a),
                    None => 0,
                }) + lock_part(e, a),
    {
        proof {
            lemma_key_pos(self.entries@, id);
        }
        match self.find(id) {
            Some(i) => {
                let ghost s = self.entries@;
                self.entries.set(i, (id, e));
                proof {
                    assert forall|k: OrderId| true implies final(self).lock_of(k) == if k == id {
                        Some(e)
                    } else {
                        lookup(s, k)
                    } by {
                        lemma_update(s, i as int, e, k, Asset::ETH);
                    }
                    assert forall|a: Asset| true implies final(self).locked_total(a) == total(s, a)
                        - lock_part(s[i as int].1, a) + lock_part(e, a) by {
                        lemma_update(s, i as int, e, id, a);
                    }
                    lemma_update(s, i as int, e, id, Asset::ETH);
                }
            },
            None => {
                let ghost s = self.entries@;
                self.entries.push((id, e));
                proof {
                    assert(self.entries@.drop_last() =~= s);
                    assert forall|k: OrderId| k != id implies final(self).lock_of(k) == lookup(
                        s,
                        k,
                    ) by {}
                    assert forall|i: int, j: int|
                        0 <= i < j < self.entries@.len() implies self.entries@[i].0
                        != self.entries@[j].0 by {
                        if j == s.len() {
                            if s[i].0 == id {
                                lemma_lookup_index(s, i);
                            }
                        }
                    }
                }
            },
        }
    }

    /// Removes the lock of order `id`, returning it.
    fn remove(&mut self, id: OrderId) -> (r: Option<LockEntry>)
        requires
            old(self).wf(),
        ensures
            final(self).wf(),
            final(self).entries@ == table_remove(old(self).entries@, id),
            r == old(self).lock_of(id),
            final(self).lock_of(id) is None,
            forall|k: OrderId| k != id ==> final(self).lock_of(k) == old(self).lock_of(k),
            forall|a: Asset|
                final(self).locked_total(a) == old(self).locked_total(a) - (match r {
                    Some(p) => lock_part(p, a),
                    None => 0,
                }),
            r is None ==> *final(self) == *old(self),
            r is Some ==> final(self).count() == old(self).count() - 1,
    {
        proof {
            lemma_key_pos(self.entries@, id);
        }
        match self.find(id) {
            Some(i) => {
                let ghost s = self.entries@;
                let (_, e) = self.entries.remove(i);
                proof {
                    assert forall|k: OrderId| true implies final(self).lock_of(k) == if k == id {
                        None
                    } else {
                        lookup(s, k)
                    } by {
                        lemma_remove(s, i as int, k, Asset::ETH);
                    }
                    assert forall|a: Asset| true implies final(self).locked_total(a) == total(s, a)
                        - lock_part(s[i as int].1, a) by {
                        lemma_remove(s, i as int, id, a);
                    }
                    lemma_remove(s, i as int, id, Asset::ETH);
                }
                Some(e)
            },
            None => None,
        }
    }
}

proof fn lemma_total_prefix(s: Seq<(OrderId, LockEntry)>, n: int, a: Asset)
    requires
        0 <= n <= s.len(),
    ensures
        total(s, a) == total(s.take(n), a) + total(s.skip(n), a),
    decreases s.len(),
{
    if n < s.len() {
        lemma_total_prefix(s.drop_last(), n, a);
        assert(s.drop_last().take(n) =~= s.take(n));
        assert(s.skip(n).drop_last() =~= s.drop_last().skip(n));
    } else {
        assert(s.take(n) =~= s);
        assert(s.skip(n).len() == 0);
    }
}

/// The balances of a user: for each asset, the total held, if the asset
/// was ever credited or debited.
#[derive(Debug, Clone)]
pub struct AssetBalances {
    slots: Vec<Option<Quantity>>,
}

impl AssetBalances {
    /// One slot per supported asset.
    pub closed spec fn wf(&self) -> bool {
        self.slots@.len() == 5
    }

    /// The balance entry of asset `a`, if any.
    pub closed spec fn entry(&self, a: Asset) -> Option<Quantity> {
        self.slots@[asset_index(a)]
    }

    /// The total held of asset `a` (0 without an entry).
    pub open spec fn amount(&self, a: Asset) -> int {
        match self.entry(a) {
            Some(q) => q as int,
            None => 0,
        }
    }

    /// No asset has an entry.
    pub fn new() -> (b: AssetBalances)
        ensures
            b.wf(),
            forall|a: Asset| b.entry(a) is None,
    {
        AssetBalances { slots: vec![None, None, None, None, None] }
    }

    /// The balance entry of `asset`, if any.
    pub fn get(&self, asset: &Asset) -> (r: Option<&Quantity>)
        requires
            self.wf(),
        ensures
            match r {
                Some(q) => self.entry(*asset) == Some(*q),
                None => self.entry(*asset) is None,
            },
    {
        match &self.slots[asset.index()] {
            Some(q) => Some(q),
            None => None,
        }
    }

    /// Number of assets with an entry.
    pub fn len(&self) -> (n: usize)
        requires
            self.wf(),
        ensures
            n == Set::new(|a: Asset| self.entry(a) is Some).len(),
    {
        let mut n: usize = 0;
        let mut i: usize = 0;
        assert(Set::new(|a: Asset| self.entry(a) is Some && asset_index(a) < 0) =~= Set::empty());
        while i < 5
            invariant
                self.slots@.len() == 5,
                i <= 5,
                n <= i,
                n == Set::new(|a: Asset| self.entry(a) is Some && asset_index(a) < i).len(),
            decreases 5 - i,
        {
            let ghost before = Set::new(|a: Asset| self.entry(a) is Some && asset_index(a) < i);
            let ghost a_i = asset_at(i as int);
            let ghost after = Set::new(
                |a: Asset| self.entry(a) is Some && asset_index(a) < i + 1,
            );
            proof {
                lemma_asset_at(i as int);
                lemma_small_set_finite(before);
            }
            if self.slots[i].is_some() {
                assert(after =~= before.insert(a_i));
                n = n + 1;
            } else {
                assert(after =~= before);
            }
            i = i + 1;
        }
        assert(Set::new(|a: Asset| self.entry(a) is Some && asset_index(a) < 5) =~= Set::new(
            |a: Asset| self.entry(a) is Some,
        ));
        n
    }

    /// Total held of `asset`.
    fn amount_of(&self, asset: Asset) -> (r: Quantity)
        requires
            self.wf(),
        ensures
            r == self.amount(asset),
    {
        match self.slots[asset.index()] {
            Some(q) => q,
            None => 0,
        }
    }

    /// Sets the entry of `asset` to `q`.
    fn put(&mut self, asset: Asset, q: Quantity)
        requires
            old(self).wf(),
        ensures
            final(self).wf(),
            final(self).slots@ == old(self).slots@.update(asset_index(asset), Some(q)),
            final(self).entry(asset) == Some(q),
            forall|a: Asset| a != asset ==> final(self).entry(a) == old(self).entry(a),
    {
        self.slots.set(asset.index(), Some(q));
    }
}

/// The asset at position `i` of the fixed list of assets.
pub open spec fn asset_at(i: int) -> Asset {
    if i == 0 {
        Asset::ETH
    } else if i == 1 {
        Asset::SOL
    } else if i == 2 {
        Asset::BTC
    } else if i == 3 {
        Asset::USDC
    } else {
        Asset::USDT
    }
}

proof fn lemma_asset_at(i: int)
    requires
        0 <= i < 5,
    ensures
        asset_index(asset_at(i)) == i,
        forall|a: Asset| asset_index(a) == i ==> a == asset_at(i),
{
}

proof fn lemma_small_set_finite(s: Set<Asset>)
    ensures
        s.finite(),
{
    let all = set![Asset::ETH, Asset::SOL, Asset::BTC, Asset::USDC, Asset::USDT];
    assert(s.subset_of(all)) by {
        assert forall|a: Asset| s.contains(a) implies all.contains(a) by {
            match a {
                Asset::ETH => {},
                Asset::SOL => {},
                Asset::BTC => {},
                Asset::USDC => {},
                Asset::USDT => {},
            }
        }
    }
    vstd::set_lib::lemma_set_subset_finite(all, s);
}


/// A user account: balances per asset and the funds locked by each resting order.
#[derive(Debug, Clone)]
pub struct User {
    id: UserId,
    locked_orders: LockTable,
    balances: AssetBalances,
}

/// A string value built from a literal.
fn text(s: &str) -> (r: String)
    ensures
        r@ == s@,
{
    s.to_owned()
}

/// Mathematical content of a [`User`]: the id, the lock table (order id
/// and lock, in table order) and one balance slot per asset.
pub struct UserView {
    pub id: UserId,
    pub locks: Seq<(OrderId, LockEntry)>,
    pub slots: Seq<Option<Quantity>>,
}

impl View for User {
    type V = UserView;

    closed spec fn view(&self) -> UserView {
        UserView { id: self.id, locks: self.locked_orders.entries@, slots: self.balances.slots@ }
    }
}

/// Total held of asset `a` in balance slots (0 without an entry).
pub open spec fn slot_amount(slots: Seq<Option<Quantity>>, a: Asset) -> int {
    match slots[asset_index(a)] {
        Some(q) => q as int,
        None => 0,
    }
}

/// A user view is consistent: unique lock keys, one slot per asset, and per
/// asset no more locked than held.
pub open spec fn user_view_wf(v: UserView) -> bool {
    &&& keys_unique(v.locks)
    &&& v.slots.len() == 5
    &&& forall|a: Asset| #[trigger] total(v.locks, a) <= slot_amount(v.slots, a)
}

/// Spendable amount of asset `a`: held minus locked.
pub open spec fn view_available(v: UserView, a: Asset) -> int {
    slot_amount(v.slots, a) - total(v.locks, a)
}

/// `held + credit`, saturating at the largest quantity.
pub open spec fn sat_add(held: int, credit: int) -> Quantity {
    if held + credit > u32::MAX {
        u32::MAX
    } else {
        (held + credit) as Quantity
    }
}

/// The user after a credit of `amount` of `a` (saturating).
pub open spec fn deposit_spec(v: UserView, a: Asset, amount: Quantity) -> UserView {
    UserView { slots: v.slots.update(asset_index(a), Some(sat_add(slot_amount(v.slots, a), amount as int))), ..v }
}

/// The user after a debit of `amount` of `a`; `None` when the available
/// balance is below `amount`.
pub open spec fn withdraw_spec(v: UserView, a: Asset, amount: Quantity) -> Option<UserView> {
    if view_available(v, a) < amount {
        None
    } else {
        Some(UserView { slots: v.slots.update(asset_index(a), Some((slot_amount(v.slots, a) - amount) as Quantity)), ..v })
    }
}

/// The user after locking `amount` of `a` for order `id` (replacing an
/// earlier lock of `id`); `None` when the available balance is below `amount`.
pub open spec fn lock_spec(v: UserView, id: OrderId, a: Asset, amount: Quantity) -> Option<UserView> {
    if view_available(v, a) < amount {
        None
    } else {
        Some(UserView { locks: table_set(v.locks, id, LockEntry { asset: a, amount }), ..v })
    }
}

/// The user after releasing the lock of order `id` (unchanged without one).
pub open spec fn unlock_spec(v: UserView, id: OrderId) -> UserView {
    UserView { locks: table_remove(v.locks, id), ..v }
}

/// The user after one side of a fill of order `id`: the lock (which must be
/// in `da` and hold at least `dq`) and the held `da` drop by `dq`, the lock
/// goes when it reaches zero, and `cq` of `ca` is credited (saturating).
/// `None` when the lock is missing, in another asset, or too small.
pub open spec fn apply_fill_spec(v: UserView, id: OrderId, da: Asset, dq: Quantity, ca: Asset, cq: Quantity) -> Option<UserView> {
    match lookup(v.locks, id) {
        None => None,
        Some(e) => if e.asset != da || e.amount < dq {
            None
        } else {
            let locks = if e.amount == dq {
                table_remove(v.locks, id)
            } else {
                table_set(v.locks, id, LockEntry { asset: da, amount: (e.amount - dq) as Quantity })
            };
            let s1 = v.slots.update(asset_index(da), Some((slot_amount(v.slots, da) - dq) as Quantity));
            let s2 = s1.update(asset_index(ca), Some(sat_add(slot_amount(s1, ca), cq as int)));
            Some(UserView { id: v.id, locks, slots: s2 })
        },
    }
}

impl User {
    /// Internal consistency: per asset, no more is locked than is held.
    pub open spec fn wf(&self) -> bool {
        user_view_wf(self@)
    }

    /// The user's id.
    pub open spec fn user_id(&self) -> UserId {
        self@.id
    }

    /// The lock entry of order `id`, if any.
    pub open spec fn lock_of(&self, id: OrderId) -> Option<LockEntry> {
        lookup(self@.locks, id)
    }

    /// Number of lock entries.
    pub open spec fn lock_count(&self) -> nat {
        self@.locks.len()
    }

    /// Total locked in asset `a`.
    pub open spec fn locked_total(&self, a: Asset) -> int {
        total(self@.locks, a)
    }

    /// The balance entry of asset `a`, if any.
    pub open spec fn balance_entry(&self, a: Asset) -> Option<Quantity> {
        self@.slots[asset_index(a)]
    }

    /// Total held of asset `a`, locked funds included.
    pub open spec fn balance(&self, a: Asset) -> int {
        match self.balance_entry(a) {
            Some(q) => q as int,
            None => 0,
        }
    }

    /// Spendable amount of asset `a`: held minus locked.
    pub open spec fn available(&self, a: Asset) -> int {
        self.balance(a) - self.locked_total(a)
    }

    /// The account's specification functions read its two tables.
    proof fn lemma_parts(&self)
        ensures
            forall|id: OrderId| #![trigger self.lock_of(id)] #![trigger self.locked_orders.lock_of(id)] self.lock_of(id) == self.locked_orders.lock_of(id),
            forall|a: Asset| #![trigger self.balance_entry(a)] #![trigger self.balances.entry(a)] self.balance_entry(a) == self.balances.entry(a),
            forall|a: Asset| #![trigger self.balance(a)] #![trigger self.balances.amount(a)] self.balance(a) == self.balances.amount(a),
            forall|a: Asset| #![trigger self.locked_total(a)] #![trigger self.locked_orders.locked_total(a)] self.locked_total(a) == self.locked_orders.locked_total(a),
            self.lock_count() == self.locked_orders.count(),
            self.wf() <==> (self.locked_orders.wf() && self.balances.wf() && forall|a: Asset| #[trigger] self.locked_orders.locked_total(a) <= self.balances.amount(a)),
    {
        if self.locked_orders.wf() && self.balances.wf() && forall|a: Asset| #[trigger] self.locked_orders.locked_total(a) <= self.balances.amount(a) {
            assert forall|a: Asset| #[trigger] total(self@.locks, a) <= slot_amount(self@.slots, a) by {
                assert(self.locked_orders.locked_total(a) <= self.balances.amount(a));
            }
        }
        if self.wf() {
            assert forall|a: Asset| #[trigger] self.locked_orders.locked_total(a) <= self.balances.amount(a) by {
                assert(total(self@.locks, a) <= slot_amount(self@.slots, a));
            }
        }
    }

    /// Creates a user with no balances and no locks. Without an id, a random
    /// one (from a version-4 UUID) is used.
    pub fn new(user_id: Option<UserId>) -> (u: User)
        ensures
            u.wf(),
            user_id matches Some(id) ==> u.user_id() == id,
            user_id is None ==> is_v4_value(u.user_id()),
            u.lock_count() == 0,
            forall|id: OrderId| u.lock_of(id) is None,
            forall|a: Asset| u.balance_entry(a) is None,
            forall|a: Asset| u.locked_total(a) == 0,
            u@.locks.len() == 0,
            u@.slots == seq![None::<Quantity>, None, None, None, None],
    {
        let id = match user_id {
            Some(id) => id,
            None => random_user_id(),
        };
        let u = User { id, locked_orders: LockTable::new(), balances: AssetBalances::new() };
        proof {
            u.lemma_parts();
            assert forall|a: Asset| #[trigger] u.locked_orders.locked_total(a) <= u.balances.amount(a) by {
                assert(u.balances.entry(a) is None);
            }
            assert forall|a: Asset| u.balance_entry(a) is None by {
                assert(u.balances.entry(a) is None);
            }
            assert(u@.slots =~= seq![None::<Quantity>, None, None, None, None]) by {
                assert(u.balances.entry(Asset::ETH) is None);
                assert(u.balances.entry(Asset::SOL) is None);
                assert(u.balances.entry(Asset::BTC) is None);
                assert(u.balances.entry(Asset::USDC) is None);
                assert(u.balances.entry(Asset::USDT) is None);
            }
        }
        u
    }

    /// Returns the user's id.
    pub fn get_id(&self) -> (r: UserId)
        ensures
            r == self.user_id(),
    {
        self.id
    }

    /// Credits `amount` of `asset`, saturating at the largest quantity.
    pub fn add_balance(&mut self, asset: Asset, amount: Quantity)
        requires
            old(self).wf(),
        ensures
            final(self).wf(),
            final(self).user_id() == old(self).user_id(),
            final(self).balance_entry(asset) == Some(
                (if old(self).balance(asset) + amount > u32::MAX {
                    u32::MAX as int
                } else {
                    old(self).balance(asset) + amount
                }) as u32,
            ),
            forall|a: Asset| a != asset ==> final(self).balance_entry(a) == old(self).balance_entry(a),
            forall|id: OrderId| final(self).lock_of(id) == old(self).lock_of(id),
            forall|a: Asset| final(self).locked_total(a) == old(self).locked_total(a),
            final(self).lock_count() == old(self).lock_count(),
            final(self)@ == deposit_spec(old(self)@, asset, amount),
    {
        proof {
            self.lemma_parts();
        }
        let current = self.balances.amount_of(asset);
        self.balances.put(asset, current.saturating_add(amount));
        proof {
            self.lemma_parts();
            assert forall|a: Asset| #[trigger]
                self.locked_orders.locked_total(a) <= self.balances.amount(a) by {
                assert(old(self).locked_orders.locked_total(a) <= old(self).balances.amount(a));
            }
        }
    }

    /// Returns the spendable amount of `asset` (held minus locked).
    pub fn get_available_balance(&self, asset: &Asset) -> (r: Quantity)
        requires
            self.wf(),
        ensures
            r == self.available(*asset),
    {
        let total = self.balances.amount_of(*asset);
        proof {
            lemma_total_nonneg(self.locked_orders.entries@, *asset);
            assert(self.locked_orders.locked_total(*asset) <= self.balances.amount(*asset));
        }
        let locked = self.locked_orders.sum_for(*asset);
        total - locked
    }

    /// Locks `amount` of `asset` for order `order_id`, replacing any earlier
    /// lock of that order. Refused when the available balance (computed with
    /// the earlier lock still in place) is below `amount`.
    pub fn lock(&mut self, order_id: OrderId, asset: Asset, amount: Quantity) -> (r: Result<
        (),
        String,
    >)
        requires
            old(self).wf(),
        ensures
            final(self).wf(),
            final(self).user_id() == old(self).user_id(),
            r is Err <==> old(self).available(asset) < amount,
            r matches Err(e) ==> e@ == "Insufficient balance"@ && *final(self) == *old(self),
            forall|a: Asset| final(self).balance_entry(a) == old(self).balance_entry(a),
            r is Ok ==> final(self).lock_of(order_id) == Some(LockEntry { asset, amount }),
            forall|id: OrderId| id != order_id ==> final(self).lock_of(id) == old(self).lock_of(id),
            r is Ok ==> forall|a: Asset|
                final(self).locked_total(a) == old(self).locked_total(a) - (match old(
                    self,
                ).lock_of(order_id) {
                    Some(p) => lock_part(p, a),
                    None => 0,
                }) + lock_part(LockEntry { asset, amount }, a),
            match lock_spec(old(self)@, order_id, asset, amount) {
                None => r is Err && *final(self) == *old(self),
                Some(v) => r is Ok && final(self)@ == v,
            },
    {
        proof {
            self.lemma_parts();
        }
        let available = self.get_available_balance(&asset);
        if available < amount {
            proof {
                reveal_strlit("Insufficient balance");
            }
            return Err(text("Insufficient balance"));
        }
        let ghost before = *self;
        self.locked_orders.set(order_id, LockEntry { asset, amount });
        proof {
            self.lemma_parts();
            assert forall|a: Asset| #[trigger]
                self.locked_orders.locked_total(a) <= self.balances.amount(a) by {
                assert(before.locked_orders.locked_total(a) <= before.balances.amount(a));
                match before.locked_orders.lock_of(order_id) {
                    Some(p) => {
                        lemma_lock_part_bound(before.locked_orders.entries@, order_id, a);
                    },
                    None => {},
                }
            }
        }
        Ok(())
    }

    /// Releases the lock of order `order_id`.
    pub fn unlock_order(&mut self, order_id: &OrderId) -> (r: Result<(), String>)
        requires
            old(self).wf(),
        ensures
            final(self).wf(),
            final(self).user_id() == old(self).user_id(),
            r is Err <==> old(self).lock_of(*order_id) is None,
            r matches Err(e) ==> e@ == "Order not Locked"@,
            *final(self) == *old(self) <== r is Err,
            final(self).lock_of(*order_id) is None,
            forall|id: OrderId| id != *order_id ==> final(self).lock_of(id) == old(self).lock_of(id),
            forall|a: Asset| final(self).balance_entry(a) == old(self).balance_entry(a),
            forall|a: Asset|
                final(self).locked_total(a) == old(self).locked_total(a) - (match old(
                    self,
                ).lock_of(*order_id) {
                    Some(p) => lock_part(p, a),
                    None => 0,
                }),
            final(self)@ == unlock_spec(old(self)@, *order_id),
    {
        proof {
            self.lemma_parts();
            lemma_key_pos(self@.locks, *order_id);
        }
        let ghost before = *self;
        match self.locked_orders.remove(*order_id) {
            Some(_) => {
                proof {
                    self.lemma_parts();
                    assert forall|a: Asset| #[trigger]
                        self.locked_orders.locked_total(a) <= self.balances.amount(a) by {
                        assert(before.locked_orders.locked_total(a) <= before.balances.amount(a));
                        lemma_lock_part_bound(before.locked_orders.entries@, *order_id, a);
                    }
                }
                Ok(())
            },
            None => {
                proof {
                    reveal_strlit("Order not Locked");
                }
                Err(text("Order not Locked"))
            },
        }
    }

    /// Returns the total held of `asset`, locked funds included.
    pub fn get_balance(&self, asset: &Asset) -> (r: Quantity)
        requires
            self.wf(),
        ensures
            r == self.balance(*asset),
    {
        self.balances.amount_of(*asset)
    }

    /// Returns the total locked in `asset` across all orders.
    pub fn get_locked_balance(&self, asset: Asset) -> (r: Quantity)
        requires
            self.wf(),
        ensures
            r == self.locked_total(asset),
    {
        proof {
            assert(self.locked_orders.locked_total(asset) <= self.balances.amount(asset));
        }
        self.locked_orders.sum_for(asset)
    }

    /// Settles one side of a fill of order `order_id`: the lock (which must
    /// be in `debit_asset` and hold at least `debit_amount`) and the held
    /// `debit_asset` both drop by `debit_amount`, the lock is removed when it
    /// reaches zero, and `credit_amount` of `credit_asset` is credited
    /// (saturating).
    pub fn apply_fill(
        &mut self,
        order_id: &OrderId,
        debit_asset: Asset,
        debit_amount: Quantity,
        credit_asset: Asset,
        credit_amount: Quantity,
    ) -> (r: Result<(), String>)
        requires
            old(self).wf(),
        ensures
            final(self).wf(),
            final(self).user_id() == old(self).user_id(),
            r is Err ==> *final(self) == *old(self),
            match old(self).lock_of(*order_id) {
                None => r matches Err(e) && e@ == "Order not found in locked orders"@,
                Some(entry) => if entry.asset != debit_asset {
                    r matches Err(e) && e@ == "Locked asset mismatch"@
                } else if entry.amount < debit_amount {
                    r matches Err(e) && e@ == "Locked amount insufficient for fill"@
                } else {
                    &&& r is Ok
                    &&& final(self).lock_of(*order_id) == if entry.amount == debit_amount {
                        None
                    } else {
                        Some(LockEntry { asset: debit_asset, amount: (entry.amount - debit_amount) as u32 })
                    }
                    &&& forall|a: Asset|
                        final(self).locked_total(a) == old(self).locked_total(a) - if a
                            == debit_asset {
                            debit_amount as int
                        } else {
                            0
                        }
                    &&& final(self).balance(credit_asset) == fill_credit(
                        old(self).balance(credit_asset) - if credit_asset == debit_asset {
                            debit_amount as int
                        } else {
                            0
                        },
                        credit_amount as int,
                    )
                    &&& credit_asset != debit_asset ==> final(self).balance(debit_asset)
                        == old(self).balance(debit_asset) - debit_amount
                    &&& forall|a: Asset|
                        a != credit_asset && a != debit_asset ==> final(self).balance_entry(a)
                            == old(self).balance_entry(a)
                }
            },
            forall|id: OrderId| id != *order_id ==> final(self).lock_of(id) == old(self).lock_of(id),
            match apply_fill_spec(old(self)@, *order_id, debit_asset, debit_amount, credit_asset, credit_amount) {
                None => r is Err && *final(self) == *old(self),
                Some(v) => r is Ok && final(self)@ == v,
            },
    {
        proof {
            self.lemma_parts();
        }
        let ghost before = *self;
        let i = match self.locked_orders.find(*order_id) {
            Some(i) => i,
            None => {
                proof {
                    reveal_strlit("Order not found in locked orders");
                }
                return Err(text("Order not found in locked orders"));
            },
        };
        let entry = self.locked_orders.entries[i].1;
        if entry.asset != debit_asset {
            proof {
                reveal_strlit("Locked asset mismatch");
            }
            return Err(text("Locked asset mismatch"));
        }
        if entry.amount < debit_amount {
            proof {
                reveal_strlit("Locked amount insufficient for fill");
            }
            return Err(text("Locked amount insufficient for fill"));
        }
        let left = entry.amount - debit_amount;
        if left == 0 {
            self.locked_orders.remove(*order_id);
        } else {
            self.locked_orders.set(*order_id, LockEntry { asset: debit_asset, amount: left });
        }
        proof {
            lemma_lock_part_bound(before.locked_orders.entries@, *order_id, debit_asset);
            assert(before.locked_orders.locked_total(debit_asset) <= before.balances.amount(
                debit_asset,
            ));
        }
        let held = self.balances.amount_of(debit_asset);
        self.balances.put(debit_asset, held - debit_amount);
        let credit = self.balances.amount_of(credit_asset);
        self.balances.put(credit_asset, credit.saturating_add(credit_amount));
        proof {
            self.lemma_parts();
            assert forall|a: Asset| #[trigger]
                self.locked_orders.locked_total(a) <= self.balances.amount(a) by {
                assert(before.locked_orders.locked_total(a) <= before.balances.amount(a));
            }
        }
        Ok(())
    }

    /// Debits `amount` of `asset`; refused when the available balance is below `amount`.
    pub fn substract_balance(&mut self, asset: Asset, amount: Quantity) -> (r: Result<(), String>)
        requires
            old(self).wf(),
        ensures
            final(self).wf(),
            final(self).user_id() == old(self).user_id(),
            r is Err <==> old(self).available(asset) < amount,
            r matches Err(e) ==> e@ == "Insufficient Balance"@ && *final(self) == *old(self),
            r is Ok ==> final(self).balance_entry(asset) == Some(
                (old(self).balance(asset) - amount) as u32,
            ),
            forall|a: Asset| a != asset ==> final(self).balance_entry(a) == old(self).balance_entry(a),
            forall|id: OrderId| final(self).lock_of(id) == old(self).lock_of(id),
            forall|a: Asset| final(self).locked_total(a) == old(self).locked_total(a),
            final(self).lock_count() == old(self).lock_count(),
            match withdraw_spec(old(self)@, asset, amount) {
                None => r is Err && *final(self) == *old(self),
                Some(v) => r is Ok && final(self)@ == v,
            },
    {
        proof {
            self.lemma_parts();
        }
        let available = self.get_available_balance(&asset);
        if available < amount {
            proof {
                reveal_strlit("Insufficient Balance");
            }
            return Err(text("Insufficient Balance"));
        }
        let ghost before = *self;
        proof {
            lemma_total_nonneg(self.locked_orders.entries@, asset);
        }
        let held = self.balances.amount_of(asset);
        self.balances.put(asset, held - amount);
        proof {
            self.lemma_parts();
            assert forall|a: Asset| #[trigger]
                self.locked_orders.locked_total(a) <= self.balances.amount(a) by {
                assert(before.locked_orders.locked_total(a) <= before.balances.amount(a));
            }
        }
        Ok(())
    }

    /// All balance entries, locked funds included.
    pub fn get_all_balances(&self) -> (r: &AssetBalances)
        requires
            self.wf(),
        ensures
            r.wf(),
            forall|a: Asset| r.entry(a) == self.balance_entry(a),
    {
        &self.balances
    }

    /// The account's balances, taking the account apart.
    pub(crate) fn into_balances(self) -> (r: AssetBalances)
        requires
            self.wf(),
        ensures
            r.wf(),
            forall|a: Asset| #[trigger] r.entry(a) == self.balance_entry(a),
    {
        proof {
            self.lemma_parts();
        }
        self.balances
    }

    /// All lock entries, keyed by order id.
    pub fn get_all_locked_balances(&self) -> (r: &LockTable)
        requires
            self.wf(),
        ensures
            r.wf(),
            r.count() == self.lock_count(),
            forall|id: OrderId| r.lock_of(id) == self.lock_of(id),
    {
        &self.locked_orders
    }
}

/// A credit of `credit` onto `held`, saturating at the largest quantity.
pub open spec fn fill_credit(held: int, credit: int) -> int {
    if held + credit > u32::MAX {
        u32::MAX as int
    } else {
        held + credit
    }
}

/// A single lock never exceeds the locked total of its asset.
proof fn lemma_lock_part_bound(s: Seq<(OrderId, LockEntry)>, id: OrderId, a: Asset)
    ensures
        match lookup(s, id) {
            Some(p) => lock_part(p, a) <= total(s, a),
            None => true,
        },
    decreases s.len(),
{
    if s.len() > 0 {
        lemma_lock_part_bound(s.drop_last(), id, a);
        lemma_total_nonneg(s.drop_last(), a);
    }
}


/// Locking funds for an order that holds no lock, then releasing that
/// order's lock, gives the account back unchanged.
pub proof fn lemma_lock_then_unlock(v: UserView, id: OrderId, a: Asset, amount: Quantity)
    requires
        user_view_wf(v),
        lookup(v.locks, id) is None,
        lock_spec(v, id, a, amount) is Some,
    ensures
        unlock_spec(lock_spec(v, id, a, amount).unwrap(), id) == v,
{
    lemma_key_pos(v.locks, id);
    let s2 = v.locks.push((id, LockEntry { asset: a, amount }));
    assert(s2.drop_last() =~= v.locks);
    assert(key_pos(s2, id) == s2.len() - 1);
    assert(s2.remove(s2.len() - 1) =~= v.locks);
}

/// A successful lock leaves an available balance of what was available
/// minus the amount (for an order that held no lock before).
pub proof fn lemma_lock_available(v: UserView, id: OrderId, a: Asset, amount: Quantity)
    requires
        user_view_wf(v),
        lookup(v.locks, id) is None,
        lock_spec(v, id, a, amount) is Some,
    ensures
        view_available(lock_spec(v, id, a, amount).unwrap(), a) == view_available(v, a) - amount,
        view_available(lock_spec(v, id, a, amount).unwrap(), a) >= 0,
{
    lemma_key_pos(v.locks, id);
    let s2 = v.locks.push((id, LockEntry { asset: a, amount }));
    assert(s2.drop_last() =~= v.locks);
}

/// Releasing the lock of order `id` makes its amount available again in the
/// lock's own asset, and changes no other asset's available balance.
pub proof fn lemma_unlock_available(v: UserView, id: OrderId, a: Asset)
    requires
        keys_unique(v.locks),
    ensures
        view_available(unlock_spec(v, id), a) == view_available(v, a) + match lookup(v.locks, id) {
            Some(e) => lock_part(e, a),
            None => 0,
        },
{
    lemma_key_pos(v.locks, id);
    if key_pos(v.locks, id) >= 0 {
        lemma_remove(v.locks, key_pos(v.locks, id), id, a);
        lemma_lookup_index(v.locks, key_pos(v.locks, id));
    }
}

/// One side of a fill in two different assets takes exactly `dq` of the
/// debit asset and, when the credit does not saturate, gives exactly `cq`
/// of the credit asset.
pub proof fn lemma_apply_fill_amounts(v: UserView, id: OrderId, da: Asset, dq: Quantity, ca: Asset, cq: Quantity)
    requires
        user_view_wf(v),
        da != ca,
        apply_fill_spec(v, id, da, dq, ca, cq) is Some,
        slot_amount(v.slots, ca) + cq <= u32::MAX,
    ensures
        slot_amount(apply_fill_spec(v, id, da, dq, ca, cq).unwrap().slots, da) == slot_amount(v.slots, da) - dq,
        slot_amount(apply_fill_spec(v, id, da, dq, ca, cq).unwrap().slots, ca) == slot_amount(v.slots, ca) + cq,
{
    lemma_lock_part_bound(v.locks, id, da);
    assert(total(v.locks, da) <= slot_amount(v.slots, da));
    assert(asset_index(da) != asset_index(ca));
}
} // verus!
