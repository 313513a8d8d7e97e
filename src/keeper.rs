//! The contract registry and the weight-proportional cache quota allocator.
use im::OrdMap;
use vstd::arithmetic::div_mod::{
    lemma_div_is_ordered, lemma_div_multiples_vanish, lemma_div_multiples_vanish_quotient,
    lemma_fundamental_div_mod,
};
use vstd::prelude::*;
use vstd::set_lib::lemma_subset_equality;

verus! {

/// The memory budget shared by all contracts' local caches, in bytes.
pub const TOTAL_MEMORY: u64 = 20971520;

#[verifier::external_type_specification]
#[verifier::external_body]
#[verifier::reject_recursive_types(K)]
#[verifier::reject_recursive_types(V)]
pub struct ExOrdMap<K, V>(im::OrdMap<K, V>);

/// What an ordered map from addresses to weights holds.
pub uninterp spec fn ordmap_contents(m: OrdMap<Vec<u8>, u32>) -> Map<Seq<u8>, u32>;

/// Lexicographic order on byte strings, the order of `Ord` on `Vec<u8>`.
pub open spec fn bytes_lt(a: Seq<u8>, b: Seq<u8>) -> bool
    decreases a.len(),
{
    if a.len() == 0 {
        b.len() > 0
    } else if b.len() == 0 {
        false
    } else if a[0] != b[0] {
        a[0] < b[0]
    } else {
        bytes_lt(a.drop_first(), b.drop_first())
    }
}

pub open spec fn empty_contents() -> Map<Seq<u8>, u32> {
    Map::empty()
}

/// Relies on im::OrdMap::new: the new map is empty.
#[verifier::external_body]
fn ordmap_new() -> (r: OrdMap<Vec<u8>, u32>)
    ensures
        ordmap_contents(r) == empty_contents(),
{
    OrdMap::new()
}

/// Relies on im::OrdMap::insert: the key now maps to the value, any earlier
/// value for it is overwritten, and nothing else changes.
#[verifier::external_body]
fn ordmap_insert(m: &mut OrdMap<Vec<u8>, u32>, key: Vec<u8>, value: u32)
    ensures
        ordmap_contents(*final(m)) == ordmap_contents(*old(m)).insert(key@, value),
{
    m.insert(key, value);
}

/// Relies on im::OrdMap::get: the value stored under the key, if any.
#[verifier::external_body]
fn ordmap_get(m: &OrdMap<Vec<u8>, u32>, key: &Vec<u8>) -> (r: Option<u32>)
    ensures
        r == (if ordmap_contents(*m).contains_key(key@) {
            Some(ordmap_contents(*m)[key@])
        } else {
            None::<u32>
        }),
{
    m.get(key).copied()
}

/// Relies on im::OrdMap::len: the number of entries.
#[verifier::external_body]
fn ordmap_len(m: &OrdMap<Vec<u8>, u32>) -> (r: usize)
    ensures
        r == ordmap_contents(*m).len(),
{
    m.len()
}

/// Relies on im::OrdMap::iter: every entry once, keys from lowest to highest.
#[verifier::external_body]
fn ordmap_entries(m: &OrdMap<Vec<u8>, u32>) -> (r: Vec<(Vec<u8>, u32)>)
    ensures
        r@.len() == ordmap_contents(*m).len(),
        forall|i: int|
            0 <= i < r@.len() ==> #[trigger] ordmap_contents(*m).contains_key(r@[i].0@)
                && ordmap_contents(*m)[r@[i].0@] == r@[i].1,
        forall|i: int, j: int| 0 <= i < j < r@.len() ==> bytes_lt(#[trigger] r@[i].0@, #[trigger] r@[j].0@),
{
    m.iter().map(|(k, v)| (k.clone(), *v)).collect()
}

/// Every key of the map occurs in the listing.
pub open spec fn covers_keys(m: Map<Seq<u8>, u32>, ks: Seq<Seq<u8>>) -> bool {
    forall|k: Seq<u8>| #[trigger] m.contains_key(k) ==> ks.contains(k)
}

pub open spec fn entry_keys(e: Seq<(Vec<u8>, u32)>) -> Seq<Seq<u8>> {
    Seq::new(e.len(), |i: int| e[i].0@)
}

pub open spec fn vec_keys(r: Seq<Vec<u8>>) -> Seq<Seq<u8>> {
    Seq::new(r.len(), |i: int| r[i]@)
}

pub open spec fn contract_keys(r: Seq<Contract>) -> Seq<Seq<u8>> {
    Seq::new(r.len(), |i: int| r[i].address@)
}

pub open spec fn quota_keys(r: Seq<(Vec<u8>, usize)>) -> Seq<Seq<u8>> {
    Seq::new(r.len(), |i: int| r[i].0@)
}

proof fn lemma_bytes_lt_irreflexive(a: Seq<u8>)
    ensures
        !bytes_lt(a, a),
    decreases a.len(),
{
    if a.len() > 0 {
        lemma_bytes_lt_irreflexive(a.drop_first());
    }
}

proof fn lemma_bytes_lt_transitive(a: Seq<u8>, b: Seq<u8>, c: Seq<u8>)
    requires
        bytes_lt(a, b),
        bytes_lt(b, c),
    ensures
        bytes_lt(a, c),
    decreases a.len(),
{
    if a.len() > 0 && b.len() > 0 && c.len() > 0 && a[0] == b[0] && b[0] == c[0] {
        lemma_bytes_lt_transitive(a.drop_first(), b.drop_first(), c.drop_first());
    }
}

/// A strictly ascending listing of keys of a finite map, as many as the map
/// holds, lists every key of it.
proof fn lemma_listing_covers(m: Map<Seq<u8>, u32>, ks: Seq<Seq<u8>>)
    requires
        m.dom().finite(),
        ks.len() == m.len(),
        forall|i: int| 0 <= i < ks.len() ==> #[trigger] m.contains_key(ks[i]),
        forall|i: int, j: int| 0 <= i < j < ks.len() ==> bytes_lt(#[trigger] ks[i], #[trigger] ks[j]),
    ensures
        covers_keys(m, ks),
{
    assert forall|i: int, j: int| 0 <= i < ks.len() && 0 <= j < ks.len() && i != j implies ks[i]
        != ks[j] by {
        if i < j {
            lemma_bytes_lt_irreflexive(ks[i]);
            assert(bytes_lt(ks[i], ks[j]));
        } else {
            lemma_bytes_lt_irreflexive(ks[j]);
            assert(bytes_lt(ks[j], ks[i]));
        }
    }
    assert(ks.no_duplicates());
    ks.unique_seq_to_set();
    assert(ks.to_set().subset_of(m.dom()));
    lemma_subset_equality(ks.to_set(), m.dom());
    assert forall|k: Seq<u8>| #[trigger] m.contains_key(k) implies ks.contains(k) by {
        assert(ks.to_set().contains(k));
    }
}

/// What `ordmap_entries` gives, read as a listing of keys: every key of a
/// finite map, once each, in ascending order.
proof fn lemma_entries_cover(m: OrdMap<Vec<u8>, u32>, e: Seq<(Vec<u8>, u32)>)
    requires
        ordmap_contents(m).dom().finite(),
        e.len() == ordmap_contents(m).len(),
        forall|i: int|
            0 <= i < e.len() ==> #[trigger] ordmap_contents(m).contains_key(e[i].0@)
                && ordmap_contents(m)[e[i].0@] == e[i].1,
        forall|i: int, j: int| 0 <= i < j < e.len() ==> bytes_lt(#[trigger] e[i].0@, #[trigger] e[j].0@),
    ensures
        covers_keys(ordmap_contents(m), entry_keys(e)),
{
    let ks = entry_keys(e);
    assert forall|i: int| 0 <= i < ks.len() implies #[trigger] ordmap_contents(m).contains_key(ks[i]) by {
        assert(ordmap_contents(m).contains_key(e[i].0@));
    }
    assert forall|i: int, j: int| 0 <= i < j < ks.len() implies bytes_lt(#[trigger] ks[i], #[trigger] ks[j]) by {
        assert(bytes_lt(e[i].0@, e[j].0@));
    }
    lemma_listing_covers(ordmap_contents(m), ks);
}

/// A deployed contract, as far as the registry sees it: its address and the
/// weight that its owner gave it for cache memory.
pub struct Contract {
    pub address: Vec<u8>,
    pub weight: u32,
}

impl Contract {
    pub fn new(address: Vec<u8>, weight: u32) -> (r: Contract)
        ensures
            r.address@ == address@,
            r.weight == weight,
    {
        Contract { address, weight }
    }

    pub fn address(&self) -> (r: &Vec<u8>)
        ensures
            r@ == self.address@,
    {
        &self.address
    }

    pub fn to_weight(&self) -> (r: u32)
        ensures
            r == self.weight,
    {
        self.weight
    }
}

/// Sum of a sequence of weights.
pub open spec fn weight_sum(ws: Seq<nat>) -> nat
    decreases ws.len(),
{
    if ws.len() == 0 {
        0
    } else {
        weight_sum(ws.drop_last()) + ws.last()
    }
}

/// The quota of one weight when all weights sum to `total`.
pub open spec fn quota_of(w: nat, total: nat) -> nat {
    ((TOTAL_MEMORY * w) as int / (if total == 0 { 1 } else { total as int })) as nat
}

/// The quota of each weight in a list, in the list's order.
pub open spec fn quotas(ws: Seq<nat>) -> Seq<nat> {
    Seq::new(ws.len(), |i: int| quota_of(ws[i], weight_sum(ws)))
}

/// Sum of a sequence of quotas.
pub open spec fn quota_sum(qs: Seq<nat>) -> nat
    decreases qs.len(),
{
    if qs.len() == 0 {
        0
    } else {
        quota_sum(qs.drop_last()) + qs.last()
    }
}

/// The weights, in order, of the contracts that a quota list names.
pub open spec fn listed_weights(m: Map<Seq<u8>, u32>, r: Seq<(Vec<u8>, usize)>) -> Seq<nat> {
    Seq::new(r.len(), |i: int| m[r[i].0@] as nat)
}

/// Each weight's share of `TOTAL_MEMORY` over a fixed divisor.
pub open spec fn shares(ws: Seq<nat>, d: nat) -> Seq<nat> {
    Seq::new(ws.len(), |i: int| ((TOTAL_MEMORY * ws[i]) as int / d as int) as nat)
}

proof fn lemma_weight_le_sum(ws: Seq<nat>, i: int)
    requires
        0 <= i < ws.len(),
    ensures
        ws[i] <= weight_sum(ws),
    decreases ws.len(),
{
    if i < ws.len() - 1 {
        lemma_weight_le_sum(ws.drop_last(), i);
    }
}

proof fn lemma_floor_add(a: int, b: int, d: int)
    requires
        0 <= a,
        0 <= b,
        0 < d,
    ensures
        a / d + b / d <= (a + b) / d,
{
    lemma_fundamental_div_mod(a, d);
    lemma_fundamental_div_mod(b, d);
    assert(d * (a / d + b / d) <= a + b) by (nonlinear_arith)
        requires
            a == d * (a / d) + a % d,
            b == d * (b / d) + b % d,
            a % d >= 0,
            b % d >= 0,
    ;
    lemma_div_is_ordered(d * (a / d + b / d), a + b, d);
    lemma_div_multiples_vanish(a / d + b / d, d);
}

proof fn lemma_shares_sum(ws: Seq<nat>, d: nat)
    requires
        d > 0,
    ensures
        quota_sum(shares(ws, d)) <= (TOTAL_MEMORY * weight_sum(ws)) as int / d as int,
    decreases ws.len(),
{
    if ws.len() > 0 {
        let rest = ws.drop_last();
        lemma_shares_sum(rest, d);
        assert(shares(ws, d).drop_last() =~= shares(rest, d));
        let a = (TOTAL_MEMORY * weight_sum(rest)) as int;
        let b = (TOTAL_MEMORY * ws.last()) as int;
        lemma_floor_add(a, b, d as int);
        assert(a + b == TOTAL_MEMORY * weight_sum(ws)) by (nonlinear_arith)
            requires
                weight_sum(ws) == weight_sum(rest) + ws.last(),
                a == TOTAL_MEMORY * weight_sum(rest),
                b == TOTAL_MEMORY * ws.last(),
        ;
    }
}

/// The quotas never add up to more than `TOTAL_MEMORY`: the residue of the
/// division is left undistributed.
pub proof fn lemma_quotas_within_budget(ws: Seq<nat>)
    ensures
        quota_sum(quotas(ws)) <= TOTAL_MEMORY,
{
    let s = weight_sum(ws);
    let d: nat = if s == 0 { 1 } else { s };
    assert(quotas(ws) =~= shares(ws, d));
    lemma_shares_sum(ws, d);
    if s == 0 {
        assert((TOTAL_MEMORY * s) as int / d as int == 0);
    } else {
        lemma_div_multiples_vanish(TOTAL_MEMORY as int, s as int);
        assert(TOTAL_MEMORY * s == s * TOTAL_MEMORY) by (nonlinear_arith);
    }
}

/// All weights zero (or no contract at all) gives every contract a zero
/// quota.
pub proof fn lemma_zero_weights_zero_quotas(ws: Seq<nat>)
    requires
        forall|i: int| 0 <= i < ws.len() ==> ws[i] == 0,
    ensures
        forall|i: int| 0 <= i < ws.len() ==> #[trigger] quotas(ws)[i] == 0,
{
}

/// Every weight multiplied by `k`.
pub open spec fn scaled(ws: Seq<nat>, k: nat) -> Seq<nat> {
    Seq::new(ws.len(), |i: int| k * ws[i])
}

proof fn lemma_scaled_sum(ws: Seq<nat>, k: nat)
    ensures
        weight_sum(scaled(ws, k)) == k * weight_sum(ws),
    decreases ws.len(),
{
    let sc = scaled(ws, k);
    if ws.len() > 0 {
        let rest = ws.drop_last();
        lemma_scaled_sum(rest, k);
        assert(sc.drop_last() =~= scaled(rest, k));
        assert(sc.last() == k * ws.last());
        assert(weight_sum(sc) == weight_sum(sc.drop_last()) + sc.last());
        assert(weight_sum(sc.drop_last()) == k * weight_sum(rest));
        assert(k * weight_sum(ws) == k * weight_sum(rest) + k * ws.last()) by (nonlinear_arith)
            requires
                weight_sum(ws) == weight_sum(rest) + ws.last(),
        ;
    } else {
        assert(k * 0 == 0) by (nonlinear_arith);
    }
}

/// Multiplying every weight by the same positive factor leaves every quota
/// unchanged.
pub proof fn lemma_scaling_keeps_quotas(ws: Seq<nat>, k: nat)
    requires
        k > 0,
    ensures
        quotas(scaled(ws, k)) == quotas(ws),
{
    let sc = scaled(ws, k);
    let s = weight_sum(ws);
    lemma_scaled_sum(ws, k);
    assert forall|i: int| 0 <= i < ws.len() implies #[trigger] quotas(sc)[i] == quotas(ws)[i] by {
        lemma_weight_le_sum(ws, i);
        if s == 0 {
            assert(ws[i] == 0);
            assert(sc[i] == 0) by (nonlinear_arith)
                requires
                    sc[i] == k * ws[i],
                    ws[i] == 0,
            ;
            assert(k * s == 0) by (nonlinear_arith)
                requires
                    s == 0,
            ;
        } else {
            let a = (TOTAL_MEMORY * ws[i]) as int;
            lemma_div_multiples_vanish_quotient(k as int, a, s as int);
            assert(TOTAL_MEMORY * sc[i] == k * a) by (nonlinear_arith)
                requires
                    sc[i] == k * ws[i],
                    a == TOTAL_MEMORY * ws[i],
            ;
            assert(k * s > 0) by (nonlinear_arith)
                requires
                    k > 0,
                    s > 0,
            ;
        }
    }
    assert(quotas(sc) =~= quotas(ws));
}

pub open spec fn ascending(ks: Seq<Seq<u8>>) -> bool {
    forall|i: int, j: int| 0 <= i < j < ks.len() ==> bytes_lt(#[trigger] ks[i], #[trigger] ks[j])
}

proof fn lemma_ascending_unique(a: Seq<Seq<u8>>, b: Seq<Seq<u8>>)
    requires
        ascending(a),
        ascending(b),
        forall|x: Seq<u8>| a.contains(x) <==> b.contains(x),
    ensures
        a == b,
    decreases a.len(),
{
    if a.len() == 0 {
        if b.len() > 0 {
            assert(b.contains(b[0]));
        }
        assert(a =~= b);
    } else {
        assert(a.contains(a[0]));
        let j = choose|j: int| 0 <= j < b.len() && b[j] == a[0];
        assert(b.contains(b[0]));
        let i = choose|i: int| 0 <= i < a.len() && a[i] == b[0];
        lemma_bytes_lt_irreflexive(a[0]);
        if j > 0 {
            assert(bytes_lt(b[0], b[j]));
            if i > 0 {
                assert(bytes_lt(a[0], a[i]));
                lemma_bytes_lt_transitive(a[0], b[0], a[0]);
            }
        }
        assert(a[0] == b[0]);
        let a1 = a.drop_first();
        let b1 = b.drop_first();
        assert forall|x: Seq<u8>| a1.contains(x) <==> b1.contains(x) by {
            if a1.contains(x) {
                let p = choose|p: int| 0 <= p < a1.len() && a1[p] == x;
                assert(a[p + 1] == x);
                assert(bytes_lt(a[0], a[p + 1]));
                assert(b.contains(x));
                let q = choose|q: int| 0 <= q < b.len() && b[q] == x;
                assert(q != 0);
                assert(b1[q - 1] == x);
            }
            if b1.contains(x) {
                let p = choose|p: int| 0 <= p < b1.len() && b1[p] == x;
                assert(b[p + 1] == x);
                lemma_bytes_lt_irreflexive(b[0]);
                assert(bytes_lt(b[0], b[p + 1]));
                assert(a.contains(x));
                let q = choose|q: int| 0 <= q < a.len() && a[q] == x;
                assert(q != 0);
                assert(a1[q - 1] == x);
            }
        }
        assert forall|p: int, q: int| 0 <= p < q < a1.len() implies bytes_lt(#[trigger] a1[p], #[trigger] a1[q]) by {
            assert(bytes_lt(a[p + 1], a[q + 1]));
        }
        assert forall|p: int, q: int| 0 <= p < q < b1.len() implies bytes_lt(#[trigger] b1[p], #[trigger] b1[q]) by {
            assert(bytes_lt(b[p + 1], b[q + 1]));
        }
        lemma_ascending_unique(a1, b1);
        assert(a =~= b) by {
            assert forall|p: int| 0 <= p < a.len() implies a[p] == b[p] by {
                if p > 0 {
                    assert(a[p] == a1[p - 1]);
                    assert(b[p] == b1[p - 1]);
                }
            }
        }
    }
}

/// The quotas are fixed by the registry's contents alone: two registries with
/// the same addresses, where every weight of the second is `k > 0` times that
/// of the first, get the same addresses in the same order with the same
/// quotas. With `k == 1`, equal registries get equal listings.
pub proof fn lemma_quota_listing_scaled(
    m1: Map<Seq<u8>, u32>,
    m2: Map<Seq<u8>, u32>,
    r1: Seq<(Vec<u8>, usize)>,
    r2: Seq<(Vec<u8>, usize)>,
    k: nat,
)
    requires
        k > 0,
        m1.dom() == m2.dom(),
        forall|a: Seq<u8>| #[trigger] m1.contains_key(a) ==> m2[a] as nat == k * (m1[a] as nat),
        is_quota_listing(m1, r1),
        is_quota_listing(m2, r2),
    ensures
        quota_keys(r1) == quota_keys(r2),
        forall|i: int| 0 <= i < r1.len() ==> #[trigger] r1[i].1 == r2[i].1,
{
    let ka = quota_keys(r1);
    let kb = quota_keys(r2);
    assert(ascending(ka)) by {
        assert forall|i: int, j: int| 0 <= i < j < ka.len() implies bytes_lt(#[trigger] ka[i], #[trigger] ka[j]) by {
            assert(bytes_lt(r1[i].0@, r1[j].0@));
        }
    }
    assert(ascending(kb)) by {
        assert forall|i: int, j: int| 0 <= i < j < kb.len() implies bytes_lt(#[trigger] kb[i], #[trigger] kb[j]) by {
            assert(bytes_lt(r2[i].0@, r2[j].0@));
        }
    }
    assert forall|x: Seq<u8>| ka.contains(x) <==> kb.contains(x) by {
        if ka.contains(x) {
            let i = choose|i: int| 0 <= i < ka.len() && ka[i] == x;
            assert(m1.contains_key(r1[i].0@));
            assert(m1.dom().contains(x));
            assert(m2.contains_key(x));
        }
        if kb.contains(x) {
            let i = choose|i: int| 0 <= i < kb.len() && kb[i] == x;
            assert(m2.contains_key(r2[i].0@));
            assert(m2.dom().contains(x));
            assert(m1.contains_key(x));
        }
    }
    lemma_ascending_unique(ka, kb);
    let ws1 = listed_weights(m1, r1);
    let ws2 = listed_weights(m2, r2);
    assert forall|i: int| 0 <= i < ws2.len() implies ws2[i] == scaled(ws1, k)[i] by {
        assert(ka[i] == kb[i]);
        assert(m1.contains_key(r1[i].0@));
    }
    assert(ws2 =~= scaled(ws1, k));
    lemma_scaling_keeps_quotas(ws1, k);
    assert forall|i: int| 0 <= i < r1.len() implies #[trigger] r1[i].1 == r2[i].1 by {
        assert(r1[i].1 == quotas(ws1)[i]);
        assert(r2[i].1 == quotas(ws2)[i]);
    }
}

/// `r` is the allocator's result for the registry `m`: every contract once,
/// in ascending address order, each with its quota.
pub open spec fn is_quota_listing(m: Map<Seq<u8>, u32>, r: Seq<(Vec<u8>, usize)>) -> bool {
    &&& r.len() == m.len()
    &&& forall|i: int| 0 <= i < r.len() ==> #[trigger] m.contains_key(r[i].0@)
    &&& forall|i: int, j: int| 0 <= i < j < r.len() ==> bytes_lt(#[trigger] r[i].0@, #[trigger] r[j].0@)
    &&& covers_keys(m, quota_keys(r))
    &&& forall|i: int| 0 <= i < r.len() ==> #[trigger] r[i].1 == quotas(listed_weights(m, r))[i]
}

pub open spec fn listed_quotas(r: Seq<(Vec<u8>, usize)>) -> Seq<nat> {
    Seq::new(r.len(), |i: int| r[i].1 as nat)
}

/// The quota of every contract held, in ascending address order: each gets
/// `TOTAL_MEMORY * weight / max(1, total weight)`, rounded down.
#[verifier::spinoff_prover]
pub fn calc_cache_quotas(contracts: &ContractsKeeper) -> (r: Vec<(Vec<u8>, usize)>)
    requires
        contracts.wf(),
        contracts@.len() <= 0x1_0000_0000,
    ensures
        is_quota_listing(contracts@, r@),
        quota_sum(listed_quotas(r@)) <= TOTAL_MEMORY,
        (forall|k: Seq<u8>| #[trigger] contracts@.contains_key(k) ==> contracts@[k] == 0) ==> forall|i: int|
            0 <= i < r@.len() ==> #[trigger] r@[i].1 == 0,
{
    let entries = ordmap_entries(&contracts.contracts);
    let ghost ws = Seq::new(entries@.len(), |i: int| entries@[i].1 as nat);
    let mut total: u64 = 0;
    let mut i: usize = 0;
    while i < entries.len()
        invariant
            i <= entries@.len(),
            entries@.len() <= 0x1_0000_0000,
            ws == Seq::new(entries@.len(), |i: int| entries@[i].1 as nat),
            total == weight_sum(ws.take(i as int)),
            total <= i * 0xFFFF_FFFF,
        decreases entries@.len() - i,
    {
        assert(ws.take(i + 1).drop_last() =~= ws.take(i as int));
        let w = entries[i].1;
        assert(total + w <= (i + 1) * 0xFFFF_FFFF) by (nonlinear_arith)
            requires
                total <= i * 0xFFFF_FFFF,
                w <= 0xFFFF_FFFF,
        ;
        assert((i + 1) * 0xFFFF_FFFF <= 0x1_0000_0000 * 0xFFFF_FFFF) by (nonlinear_arith)
            requires
                i + 1 <= 0x1_0000_0000,
        ;
        total = total + w as u64;
        i += 1;
    }
    assert(ws.take(entries@.len() as int) =~= ws);
    let divisor: u64 = if total == 0 { 1 } else { total };
    let mut r: Vec<(Vec<u8>, usize)> = Vec::new();
    let mut i: usize = 0;
    while i < entries.len()
        invariant
            i <= entries@.len(),
            ws == Seq::new(entries@.len(), |i: int| entries@[i].1 as nat),
            total == weight_sum(ws),
            divisor == (if total == 0 { 1 } else { total }),
            r@.len() == i,
            forall|k: int| 0 <= k < i ==> #[trigger] r@[k].0@ == entries@[k].0@,
            forall|k: int| 0 <= k < i ==> #[trigger] r@[k].1 == quotas(ws)[k],
        decreases entries@.len() - i,
    {
        let w = entries[i].1;
        proof {
            lemma_weight_le_sum(ws, i as int);
            assert(ws[i as int] == w);
        }
        assert(TOTAL_MEMORY * (w as u64) <= TOTAL_MEMORY * 0xFFFF_FFFF) by (nonlinear_arith)
            requires
                w <= 0xFFFF_FFFF,
        ;
        let q = (TOTAL_MEMORY * w as u64) / divisor;
        proof {
            if total == 0 {
                assert(w == 0);
            } else {
                assert(TOTAL_MEMORY * w <= TOTAL_MEMORY * total) by (nonlinear_arith)
                    requires
                        w <= total,
                ;
                lemma_div_is_ordered((TOTAL_MEMORY * w) as int, (TOTAL_MEMORY * total) as int, total as int);
                lemma_div_multiples_vanish(TOTAL_MEMORY as int, total as int);
                assert(TOTAL_MEMORY * total == total * TOTAL_MEMORY) by (nonlinear_arith);
            }
        }
        let key = entries[i].0.clone();
        assert(key@ == entries@[i as int].0@);
        let ghost before = r@;
        r.push((key, q as usize));
        assert(forall|k: int| 0 <= k < i ==> r@[k] == before[k]);
        assert(r@[i as int].0@ == entries@[i as int].0@);
        i += 1;
    }
    proof {
        assert forall|a: int| 0 <= a < r@.len() implies #[trigger] contracts@.contains_key(r@[a].0@) by {
            assert(ordmap_contents(contracts.contracts).contains_key(entries@[a].0@));
        }
        assert forall|a: int, b: int| 0 <= a < b < r@.len() implies bytes_lt(#[trigger] r@[a].0@, #[trigger] r@[b].0@) by {
            assert(bytes_lt(entries@[a].0@, entries@[b].0@));
        }
        assert forall|a: int| 0 <= a < r@.len() implies #[trigger] listed_weights(contracts@, r@)[a] == ws[a] by {
            assert(ordmap_contents(contracts.contracts).contains_key(entries@[a].0@));
            assert(ordmap_contents(contracts.contracts)[entries@[a].0@] == entries@[a].1);
        }
        assert(listed_weights(contracts@, r@) =~= ws);
        lemma_entries_cover(contracts.contracts, entries@);
        assert(quota_keys(r@) =~= entry_keys(entries@));
        assert(listed_quotas(r@) =~= quotas(ws));
        lemma_quotas_within_budget(ws);
        if forall|k: Seq<u8>| #[trigger] contracts@.contains_key(k) ==> contracts@[k] == 0 {
            assert forall|a: int| 0 <= a < ws.len() implies ws[a] == 0 by {
                assert(contracts@.contains_key(r@[a].0@));
            }
            lemma_zero_weights_zero_quotas(ws);
        }
    }
    r
}

/// The registry of deployed contracts, keyed by address and walked in
/// ascending address order.
pub struct ContractsKeeper {
    contracts: OrdMap<Vec<u8>, u32>,
    weight_changed: bool,
}

impl ContractsKeeper {
    /// Address to weight, for every contract held.
    pub closed spec fn view(&self) -> Map<Seq<u8>, u32> {
        ordmap_contents(self.contracts)
    }

    /// The registry holds finitely many contracts.
    pub open spec fn wf(&self) -> bool {
        self@.dom().finite()
    }

    /// Whether a weight changed since the quotas were last applied.
    pub closed spec fn quotas_stale(&self) -> bool {
        self.weight_changed
    }

    pub fn weight_changed(&self) -> (r: bool)
        ensures
            r == self.quotas_stale(),
    {
        self.weight_changed
    }

    pub fn set_weight_changed(&mut self, changed: bool)
        ensures
            final(self)@ == old(self)@,
            final(self).quotas_stale() == changed,
    {
        self.weight_changed = changed;
    }

    pub fn new() -> (r: ContractsKeeper)
        ensures
            r@ == empty_contents(),
            r.wf(),
            !r.quotas_stale(),
    {
        ContractsKeeper { contracts: ordmap_new(), weight_changed: false }
    }

    /// Adds a contract, replacing any other one at the same address.
    pub fn insert(&mut self, contract: Contract)
        requires
            old(self).wf(),
        ensures
            final(self).wf(),
            final(self)@ == old(self)@.insert(contract.address@, contract.weight),
            final(self).quotas_stale() == old(self).quotas_stale(),
    {
        ordmap_insert(&mut self.contracts, contract.address, contract.weight);
    }

    pub fn get(&self, id: &Vec<u8>) -> (r: Option<Contract>)
        ensures
            r.is_some() == self@.contains_key(id@),
            r.is_some() ==> r.unwrap().address@ == id@ && r.unwrap().weight == self@[id@],
    {
        match ordmap_get(&self.contracts, id) {
            Some(weight) => Some(Contract { address: id.clone(), weight }),
            None => None,
        }
    }

    /// Gives the contract at `id` a new weight; false where there is none.
    /// A change marks the quotas as due for recomputation.
    pub fn set_weight(&mut self, id: &Vec<u8>, weight: u32) -> (r: bool)
        requires
            old(self).wf(),
        ensures
            final(self).wf(),
            r == old(self)@.contains_key(id@),
            r ==> final(self)@ == old(self)@.insert(id@, weight) && final(self).quotas_stale(),
            !r ==> final(self)@ == old(self)@ && final(self).quotas_stale() == old(self).quotas_stale(),
    {
        match ordmap_get(&self.contracts, id) {
            Some(_) => {
                ordmap_insert(&mut self.contracts, id.clone(), weight);
                self.weight_changed = true;
                true
            },
            None => false,
        }
    }

    pub fn len(&self) -> (r: usize)
        ensures
            r == self@.len(),
    {
        ordmap_len(&self.contracts)
    }

    /// The addresses, in ascending order.
    pub fn keys(&self) -> (r: Vec<Vec<u8>>)
        requires
            self.wf(),
        ensures
            covers_keys(self@, vec_keys(r@)),
            r@.len() == self@.len(),
            forall|i: int| 0 <= i < r@.len() ==> #[trigger] self@.contains_key(r@[i]@),
            forall|i: int, j: int| 0 <= i < j < r@.len() ==> bytes_lt(#[trigger] r@[i]@, #[trigger] r@[j]@),
    {
        let entries = ordmap_entries(&self.contracts);
        let mut r: Vec<Vec<u8>> = Vec::new();
        let mut i: usize = 0;
        while i < entries.len()
            invariant
                i <= entries@.len(),
                r@.len() == i,
                forall|k: int| 0 <= k < i ==> #[trigger] r@[k]@ == entries@[k].0@,
            decreases entries@.len() - i,
        {
            let key = entries[i].0.clone();
            assert(key@ == entries@[i as int].0@);
            r.push(key);
            i += 1;
        }
        proof {
            assert forall|a: int| 0 <= a < r@.len() implies #[trigger] self@.contains_key(r@[a]@) by {
                assert(ordmap_contents(self.contracts).contains_key(entries@[a].0@));
            }
            assert forall|a: int, b: int| 0 <= a < b < r@.len() implies bytes_lt(#[trigger] r@[a]@, #[trigger] r@[b]@) by {
                assert(bytes_lt(entries@[a].0@, entries@[b].0@));
            }
            lemma_entries_cover(self.contracts, entries@);
            assert(vec_keys(r@) =~= entry_keys(entries@));
        }
        r
    }

    /// The contracts held, in ascending address order.
    pub fn iter(&self) -> (r: Vec<Contract>)
        requires
            self.wf(),
        ensures
            covers_keys(self@, contract_keys(r@)),
            r@.len() == self@.len(),
            forall|i: int|
                0 <= i < r@.len() ==> #[trigger] self@.contains_key(r@[i].address@)
                    && self@[r@[i].address@] == r@[i].weight,
            forall|i: int, j: int|
                0 <= i < j < r@.len() ==> bytes_lt(#[trigger] r@[i].address@, #[trigger] r@[j].address@),
    {
        let entries = ordmap_entries(&self.contracts);
        let mut r: Vec<Contract> = Vec::new();
        let mut i: usize = 0;
        while i < entries.len()
            invariant
                i <= entries@.len(),
                r@.len() == i,
                forall|k: int|
                    0 <= k < i ==> #[trigger] r@[k].address@ == entries@[k].0@ && r@[k].weight
                        == entries@[k].1,
            decreases entries@.len() - i,
        {
            let c = Contract { address: entries[i].0.clone(), weight: entries[i].1 };
            assert(c.address@ == entries@[i as int].0@);
            r.push(c);
            i += 1;
        }
        proof {
            assert forall|a: int| 0 <= a < r@.len() implies #[trigger] self@.contains_key(r@[a].address@)
                && self@[r@[a].address@] == r@[a].weight by {
                assert(ordmap_contents(self.contracts).contains_key(entries@[a].0@));
            }
            assert forall|a: int, b: int| 0 <= a < b < r@.len() implies bytes_lt(
                #[trigger] r@[a].address@,
                #[trigger] r@[b].address@,
            ) by {
                assert(bytes_lt(entries@[a].0@, entries@[b].0@));
            }
            lemma_entries_cover(self.contracts, entries@);
            assert(contract_keys(r@) =~= entry_keys(entries@));
        }
        r
    }

    /// Takes every contract out, in ascending address order, and leaves the
    /// registry empty.
    pub fn drain(&mut self) -> (r: Vec<Contract>)
        requires
            old(self).wf(),
        ensures
            final(self).wf(),
            covers_keys(old(self)@, contract_keys(r@)),
            final(self)@ == empty_contents(),
            final(self).quotas_stale() == old(self).quotas_stale(),
            r@.len() == old(self)@.len(),
            forall|i: int|
                0 <= i < r@.len() ==> #[trigger] old(self)@.contains_key(r@[i].address@)
                    && old(self)@[r@[i].address@] == r@[i].weight,
            forall|i: int, j: int|
                0 <= i < j < r@.len() ==> bytes_lt(#[trigger] r@[i].address@, #[trigger] r@[j].address@),
    {
        let r = self.iter();
        self.contracts = ordmap_new();
        r
    }

    /// The quotas to hand to the local cache: those of `calc_cache_quotas`.
    pub fn apply_local_cache_quotas(&self) -> (r: Vec<(Vec<u8>, usize)>)
        requires
            self.wf(),
            self@.len() <= 0x1_0000_0000,
        ensures
            is_quota_listing(self@, r@),
            quota_sum(listed_quotas(r@)) <= TOTAL_MEMORY,
    {
        calc_cache_quotas(self)
    }
}

} // verus!
