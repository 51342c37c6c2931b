//! The frequency sketch engine: a `depth × width` grid of
//! (fingerprint, count) buckets with probabilistic collision decay,
//! composed with a bounded min-heap of the current top-k candidates,
//! plus a lazy, time-gated decay of the tracked counts.
//!
//! Decay probabilities are kept in fixed point: a table entry `t`
//! stands for the probability `t / DECAY_UNIT`, and a collision decays
//! the incumbent when a uniform 32-bit draw lands below the entry for
//! the incumbent's count.

use vstd::prelude::*;

use crate::heap::MinHeap;
use crate::heap::TotalOrdered;
use crate::heap::is_heap;
use crate::murmur3::murmur3_32;
use crate::murmur3::murmur3_spec;

verus! {

broadcast use vstd::seq_lib::group_to_multiset_ensures;

/// Number of entries in the decay lookup table.
pub const LOOKUP_TABLE_CNT: usize = 256;

/// The fixed-point scale of decay probabilities: this value stands for
/// probability one.
pub const DECAY_UNIT: u64 = 0x1_0000_0000;

// ---------------------------------------------------------------------
// Outside calls the engine relies on.
// ---------------------------------------------------------------------

#[verifier::external_type_specification]
#[verifier::external_body]
pub struct ExInstant(std::time::Instant);

/// Relies on std::time::Instant::now: an opaque reading of the
/// monotonic clock.  Nothing is assumed of the value.
#[verifier::external_body]
fn instant_now() -> std::time::Instant {
    std::time::Instant::now()
}

/// Relies on std::time::Instant::elapsed: the time since `t` was taken,
/// which depends on the clock.  Nothing is assumed of the value.
#[verifier::external_body]
fn instant_elapsed(t: &std::time::Instant) -> std::time::Duration {
    t.elapsed()
}

/// Relies on std::time::Duration::as_millis: the duration counted in
/// whole milliseconds.  Nothing is assumed of the value.
#[verifier::external_body]
fn duration_as_millis(d: &std::time::Duration) -> u128 {
    d.as_millis()
}

/// Relies on rand::random::<u32>: a 32-bit value drawn uniformly from
/// the thread-local generator.  Nothing is assumed of the value.
#[verifier::external_body]
fn random_u32() -> u32 {
    rand::random::<u32>()
}

// ---------------------------------------------------------------------
// Items and their total order.
// ---------------------------------------------------------------------

/// The mathematical content of a tracked item.
pub ghost struct ItemV {
    pub key: Seq<u8>,
    pub cnt: u32,
}

/// A tracked top-k candidate: a key and its estimated count.
#[derive(Debug, Clone, Default, PartialEq, Eq)]
pub struct Item {
    key: Vec<u8>,
    cnt: u32,
}

impl View for Item {
    type V = ItemV;

    closed spec fn view(&self) -> ItemV {
        ItemV { key: self.key@, cnt: self.cnt }
    }
}

impl Item {
    /// The tracked key.
    pub fn key(&self) -> (r: &[u8])
        ensures
            r@ == self@.key,
    {
        self.key.as_slice()
    }

    /// The estimated count.
    pub fn cnt(&self) -> (r: u32)
        ensures
            r == self@.cnt,
    {
        self.cnt
    }

    /// Overwrite the estimated count, keeping the key.
    pub fn set_cnt(&mut self, cnt: u32)
        ensures
            final(self)@.key == old(self)@.key,
            final(self)@.cnt == cnt,
    {
        self.cnt = cnt;
    }
}

/// Lexicographic order on byte sequences.
pub open spec fn lex_le(a: Seq<u8>, b: Seq<u8>) -> bool
    decreases a.len(),
{
    if a.len() == 0 {
        true
    } else if b.len() == 0 {
        false
    } else if a[0] < b[0] {
        true
    } else if a[0] > b[0] {
        false
    } else {
        lex_le(a.drop_first(), b.drop_first())
    }
}

/// The lexicographic order relates any two byte sequences.
pub proof fn lemma_lex_le_total(a: Seq<u8>, b: Seq<u8>)
    ensures
        lex_le(a, b) || lex_le(b, a),
    decreases a.len(),
{
    if a.len() > 0 && b.len() > 0 && a[0] == b[0] {
        lemma_lex_le_total(a.drop_first(), b.drop_first());
    }
}

/// The lexicographic order is transitive.
pub proof fn lemma_lex_le_trans(a: Seq<u8>, b: Seq<u8>, c: Seq<u8>)
    requires
        lex_le(a, b),
        lex_le(b, c),
    ensures
        lex_le(a, c),
    decreases a.len(),
{
    if a.len() > 0 && b.len() > 0 && c.len() > 0 && a[0] == b[0] && b[0] == c[0] {
        lemma_lex_le_trans(a.drop_first(), b.drop_first(), c.drop_first());
    }
}

proof fn lemma_lex_skip(a: Seq<u8>, b: Seq<u8>, i: int)
    requires
        0 <= i <= a.len(),
        i <= b.len(),
        forall|k: int| 0 <= k < i ==> a[k] == b[k],
    ensures
        lex_le(a, b) == lex_le(a.skip(i), b.skip(i)),
    decreases i,
{
    if i == 0 {
        assert(a.skip(0) =~= a);
        assert(b.skip(0) =~= b);
    } else {
        assert(a[0] == b[0]);
        assert(forall|k: int|
            0 <= k < i - 1 ==> #[trigger] a.drop_first()[k] == b.drop_first()[k]);
        lemma_lex_skip(a.drop_first(), b.drop_first(), i - 1);
        assert(a.drop_first().skip(i - 1) =~= a.skip(i));
        assert(b.drop_first().skip(i - 1) =~= b.skip(i));
    }
}

/// Executable lexicographic comparison.
fn lex_le_bytes(a: &Vec<u8>, b: &Vec<u8>) -> (r: bool)
    ensures
        r == lex_le(a@, b@),
{
    let na = a.len();
    let nb = b.len();
    let mut i: usize = 0;
    while i < na && i < nb
        invariant
            i <= na,
            i <= nb,
            na == a@.len(),
            nb == b@.len(),
            forall|k: int| 0 <= k < i ==> a@[k] == b@[k],
        decreases na - i,
    {
        let x = a[i];
        let y = b[i];
        if x < y {
            proof {
                lemma_lex_skip(a@, b@, i as int);
            }
            return true;
        }
        if x > y {
            proof {
                lemma_lex_skip(a@, b@, i as int);
            }
            return false;
        }
        i = i + 1;
    }
    proof {
        lemma_lex_skip(a@, b@, i as int);
        if na <= nb {
            assert(i == na);
            assert(a@.skip(i as int).len() == 0);
        } else {
            assert(i == nb);
            assert(a@.skip(i as int).len() > 0 && b@.skip(i as int).len() == 0);
        }
    }
    na <= nb
}

/// The item order: fewer occurrences rank lower; on equal counts the
/// lexicographically greater key is the smaller item, so under ties the
/// lexicographically smaller key survives longer in the heap.
pub open spec fn item_le(a: ItemV, b: ItemV) -> bool {
    a.cnt < b.cnt || (a.cnt == b.cnt && lex_le(b.key, a.key))
}

/// The item order relates any two items.
pub proof fn lemma_item_le_total(a: ItemV, b: ItemV)
    ensures
        item_le(a, b) || item_le(b, a),
{
    if a.cnt == b.cnt {
        lemma_lex_le_total(a.key, b.key);
    }
}

/// The item order is transitive.
pub proof fn lemma_item_le_trans(a: ItemV, b: ItemV, c: ItemV)
    requires
        item_le(a, b),
        item_le(b, c),
    ensures
        item_le(a, c),
{
    if a.cnt == b.cnt && b.cnt == c.cnt {
        lemma_lex_le_trans(c.key, b.key, a.key);
    }
}

impl TotalOrdered for Item {
    open spec fn le_spec(self, other: Item) -> bool {
        item_le(self@, other@)
    }

    proof fn lemma_le_total(a: Item, b: Item) {
        lemma_item_le_total(a@, b@);
    }

    proof fn lemma_le_trans(a: Item, b: Item, c: Item) {
        lemma_item_le_trans(a@, b@, c@);
    }

    fn less(&self, other: &Item) -> (r: bool) {
        if self.cnt < other.cnt {
            true
        } else if self.cnt > other.cnt {
            false
        } else {
            !lex_le_bytes(&self.key, &other.key)
        }
    }

    fn duplicate(&self) -> (r: Item) {
        let mut k: Vec<u8> = Vec::new();
        let n = self.key.len();
        let mut i: usize = 0;
        proof {
            assert(k@ =~= self.key@.take(0));
        }
        while i < n
            invariant
                i <= n,
                n == self.key@.len(),
                k@ == self.key@.take(i as int),
            decreases n - i,
        {
            k.push(self.key[i]);
            proof {
                assert(k@ =~= self.key@.take(i as int + 1));
            }
            i = i + 1;
        }
        proof {
            assert(self.key@.take(n as int) =~= self.key@);
        }
        Item { key: k, cnt: self.cnt }
    }
}

// ---------------------------------------------------------------------
// Spec-level helpers over item sequences.
// ---------------------------------------------------------------------

/// The mathematical contents of a sequence of items.
pub open spec fn items_view(s: Seq<Item>) -> Seq<ItemV> {
    s.map_values(|it: Item| it@)
}

/// Whether some item in the sequence carries exactly this key.
pub open spec fn contains_key(s: Seq<ItemV>, key: Seq<u8>) -> bool {
    exists|i: int| 0 <= i < s.len() && (#[trigger] s[i]).key == key
}

/// Every count divided by the decay divisor, keys untouched.
pub open spec fn decayed(s: Seq<ItemV>, d: nat) -> Seq<ItemV>
    recommends
        d >= 1,
{
    s.map_values(|it: ItemV| ItemV { key: it.key, cnt: ((it.cnt as nat) / d) as u32 })
}

/// Descending order under the item order.
pub open spec fn sorted_desc(s: Seq<ItemV>) -> bool {
    forall|a: int, b: int| 0 <= a < b < s.len() ==> item_le(#[trigger] s[b], #[trigger] s[a])
}

/// How an accepted key with estimate `est` changes the tracked
/// contents: an already-tracked key has its count replaced, a heap
/// below capacity gains the key, and a full heap trades its minimum
/// for the key, which must estimate strictly above it.
pub open spec fn heap_admitted(
    pre: Seq<ItemV>,
    post: Seq<ItemV>,
    key: Seq<u8>,
    est: u32,
    k: u32,
) -> bool {
    if contains_key(pre, key) {
        exists|i: int|
            0 <= i < pre.len() && (#[trigger] pre[i]).key == key && post.to_multiset()
                == pre.to_multiset().insert(ItemV { key, cnt: est }).remove(pre[i])
    } else if pre.len() < k {
        post.to_multiset() == pre.to_multiset().insert(ItemV { key, cnt: est })
    } else {
        pre.len() > 0 && pre[0].cnt < est && post.to_multiset() == pre.to_multiset().insert(
            ItemV { key, cnt: est },
        ).remove(pre[0])
    }
}

/// Sequences with equal contents keep equal contents under any map.
proof fn lemma_map_multiset<A, B>(s1: Seq<A>, s2: Seq<A>, f: spec_fn(A) -> B)
    requires
        s1.to_multiset() == s2.to_multiset(),
    ensures
        s1.map_values(f).to_multiset() == s2.map_values(f).to_multiset(),
    decreases s1.len(),
{
    broadcast use vstd::multiset::group_multiset_axioms;

    if s1.len() == 0 {
        assert(s1.to_multiset().len() == 0);
        assert(s2.len() == s2.to_multiset().len());
        assert(s2.len() == 0);
        assert(s1.map_values(f) =~= s2.map_values(f));
    } else {
        let x = s1[0];
        assert(s1.contains(x));
        assert(s1.to_multiset().count(x) > 0);
        assert(s2.contains(x));
        let j = choose|j: int| 0 <= j < s2.len() && s2[j] == x;
        let t1 = s1.remove(0);
        let t2 = s2.remove(j);
        assert(t1.to_multiset() == s1.to_multiset().remove(x));
        assert(t2.to_multiset() == s2.to_multiset().remove(x));
        lemma_map_multiset(t1, t2, f);
        assert(t1.map_values(f) =~= s1.map_values(f).remove(0));
        assert(t2.map_values(f) =~= s2.map_values(f).remove(j));
        assert(s1.map_values(f).remove(0).to_multiset() == s1.map_values(f).to_multiset().remove(
            f(x),
        ));
        assert(s2.map_values(f)[j] == f(x));
        assert(s2.map_values(f).remove(j).to_multiset() == s2.map_values(f).to_multiset().remove(
            f(x),
        ));
        assert(s1.map_values(f).contains(f(x)));
        assert(s1.map_values(f).to_multiset().count(f(x)) > 0);
        assert(s2.map_values(f).contains(f(x)));
        assert(s2.map_values(f).to_multiset().count(f(x)) > 0);
        assert forall|y: B|
            s1.map_values(f).to_multiset().count(y) == s2.map_values(f).to_multiset().count(
                y,
            ) by {
            assert(s1.map_values(f).to_multiset().remove(f(x)).count(y) == s2.map_values(
                f,
            ).to_multiset().remove(f(x)).count(y));
        }
        assert(s1.map_values(f).to_multiset() =~= s2.map_values(f).to_multiset());
    }
}

/// Engines whose hashed buckets agree on the first `n` rows give a key
/// the same estimate there.
proof fn lemma_estimate_congruent(s1: HeavyKeeper, s2: HeavyKeeper, key: Seq<u8>, n: int)
    requires
        s1.grid_width() == s2.grid_width(),
        forall|r: int|
            0 <= r < n ==> #[trigger] s1.bucket_at(r, col_of(key, r, s1.grid_width()))
                == s2.bucket_at(r, col_of(key, r, s2.grid_width())),
    ensures
        s1.estimate_upto(key, n) == s2.estimate_upto(key, n),
    decreases n,
{
    if n > 0 {
        lemma_estimate_congruent(s1, s2, key, n - 1);
    }
}

/// Item sequences with equal contents have equal mathematical contents.
proof fn lemma_items_multiset(s1: Seq<Item>, s2: Seq<Item>)
    requires
        s1.to_multiset() == s2.to_multiset(),
    ensures
        items_view(s1).to_multiset() == items_view(s2).to_multiset(),
{
    lemma_map_multiset(s1, s2, |it: Item| it@);
}

// ---------------------------------------------------------------------
// Small executable byte helpers.
// ---------------------------------------------------------------------

/// Byte-for-byte equality of a stored key and a query key.
fn bytes_eq(a: &Vec<u8>, b: &[u8]) -> (r: bool)
    ensures
        r == (a@ == b@),
{
    if a.len() != b.len() {
        return false;
    }
    let n = a.len();
    let mut i: usize = 0;
    while i < n
        invariant
            i <= n,
            n == a@.len(),
            n == b@.len(),
            forall|k: int| 0 <= k < i ==> a@[k] == b@[k],
        decreases n - i,
    {
        if a[i] != b[i] {
            return false;
        }
        i = i + 1;
    }
    proof {
        assert(a@ =~= b@);
    }
    true
}

/// Copy a byte slice into an owned vector.
fn bytes_to_vec(b: &[u8]) -> (r: Vec<u8>)
    ensures
        r@ == b@,
{
    let mut out: Vec<u8> = Vec::new();
    let n = b.len();
    let mut i: usize = 0;
    while i < n
        invariant
            i <= n,
            n == b@.len(),
            out@.len() == i,
            forall|k: int| 0 <= k < i ==> out@[k] == b@[k],
        decreases n - i,
    {
        out.push(b[i]);
        i = i + 1;
    }
    proof {
        assert(out@ =~= b@);
    }
    out
}

/// Swap two positions of an item vector.
fn exchange(v: &mut Vec<Item>, i: usize, j: usize)
    requires
        i < j,
        j < old(v)@.len(),
    ensures
        final(v)@ == old(v)@.update(i as int, old(v)@[j as int]).update(
            j as int,
            old(v)@[i as int],
        ),
        final(v)@.to_multiset() == old(v)@.to_multiset(),
        final(v)@.len() == old(v)@.len(),
{
    proof {
        crate::heap::lemma_swap_multiset(v@, i as int, j as int);
    }
    let ghost s0 = v@;
    let x = v.remove(j);
    let y = v.remove(i);
    v.insert(i, x);
    v.insert(j, y);
    proof {
        assert(v@ =~= s0.update(i as int, s0[j as int]).update(j as int, s0[i as int]));
    }
}

// ---------------------------------------------------------------------
// The engine.
// ---------------------------------------------------------------------

/// One grid cell: the fingerprint of the key holding it, and a count.
/// `{0, 0}` is an empty cell.
#[derive(Clone, Copy)]
struct Bucket {
    fingerprint: u32,
    cnt: u32,
}

/// One fixed-point decay step: multiply by the base and rescale.
pub open spec fn decay_step(t: u64, base: u64) -> u64 {
    ((t * base) / (DECAY_UNIT as int)) as u64
}

/// The grid column that the given row hashes this key to.
#[verifier::opaque]
pub open spec fn col_of(key: Seq<u8>, row: int, width: u32) -> int
    recommends
        width >= 1,
{
    (murmur3_spec(key, row as u32) as int) % (width as int)
}

/// The hashed column always lies within the row.
pub proof fn lemma_col_of_range(key: Seq<u8>, row: int, width: u32)
    requires
        width >= 1,
    ensures
        0 <= col_of(key, row, width) < width,
{
    reveal(col_of);
}

/// Saturating 32-bit addition.
pub open spec fn sat_add(a: u32, b: u32) -> u32 {
    if a + b > u32::MAX {
        u32::MAX
    } else {
        (a + b) as u32
    }
}

/// How one `add` call may change the bucket a row hashes the key to: an
/// empty bucket is claimed outright; a matching fingerprint has its
/// count raised (saturating); a colliding incumbent either survives
/// with at most `incr` decrements (never reaching zero), or is
/// dislodged and the bucket claimed with the remaining increment.
pub open spec fn bucket_step(pre: (u32, u32), post: (u32, u32), fp: u32, incr: u32) -> bool {
    ||| (pre.1 == 0 && post == (fp, incr))
    ||| (pre.1 != 0 && pre.0 == fp && post == (fp, sat_add(pre.1, incr)))
    ||| (pre.1 != 0 && pre.0 != fp && post.0 == pre.0 && post.1 <= pre.1 && pre.1 - incr <= post.1
        && post.1 > 0)
    ||| (pre.1 != 0 && pre.0 != fp && post.0 == fp && 1 <= post.1 <= incr)
}

/// The top-k estimator.
pub struct HeavyKeeper {
    k: u32,
    width: u32,
    depth: u32,
    lookups: Vec<u64>,
    buckets: Vec<Bucket>,
    min_heap: MinHeap<Item>,
    last_heap_decay: std::time::Instant,
    heap_decay: usize,
    heap_decay_interval_ms: u128,
}

impl HeavyKeeper {
    /// The heap's mathematical contents.
    pub closed spec fn heap_view(&self) -> Seq<ItemV> {
        items_view(self.min_heap@)
    }

    /// The top-k capacity.
    pub closed spec fn capacity(&self) -> u32 {
        self.k
    }

    /// Buckets per grid row.
    pub closed spec fn grid_width(&self) -> u32 {
        self.width
    }

    /// Number of grid rows.
    pub closed spec fn grid_depth(&self) -> u32 {
        self.depth
    }

    /// The heap-decay divisor (1 means decay is disabled).
    pub closed spec fn decay_divisor(&self) -> usize {
        self.heap_decay
    }

    /// The heap-decay interval in milliseconds.
    pub closed spec fn decay_interval_ms(&self) -> u128 {
        self.heap_decay_interval_ms
    }

    /// The decay table entry for count `i`, scaled by `DECAY_UNIT`.
    pub closed spec fn table_at(&self, i: int) -> u64 {
        self.lookups@[i]
    }

    /// The (fingerprint, count) pair of the grid cell at the given row
    /// and column.
    pub closed spec fn bucket_at(&self, row: int, col: int) -> (u32, u32) {
        (
            self.buckets@[row * (self.width as int) + col].fingerprint,
            self.buckets@[row * (self.width as int) + col].cnt,
        )
    }

    /// The estimate the first `n` grid rows give for a key: the largest
    /// count among the hashed buckets whose fingerprint matches the key.
    pub open spec fn estimate_upto(self, key: Seq<u8>, n: int) -> u32
        decreases n,
    {
        if n <= 0 {
            0
        } else {
            let b = self.bucket_at(n - 1, col_of(key, n - 1, self.grid_width()));
            let c = if b.0 == murmur3_spec(key, 0) {
                b.1
            } else {
                0u32
            };
            let rest = self.estimate_upto(key, n - 1);
            if c > rest {
                c
            } else {
                rest
            }
        }
    }

    /// The sketch's frequency estimate for a key: the largest count the
    /// key owns in any row's hashed bucket.
    pub open spec fn estimate_of(self, key: Seq<u8>) -> u32 {
        self.estimate_upto(key, self.grid_depth() as int)
    }

    /// Structural soundness: fixed grid dimensions, a complete and
    /// monotone decay table, and a heap within capacity.
    pub closed spec fn wf(&self) -> bool {
        &&& 1 <= self.k
        &&& 1 <= self.width
        &&& 1 <= self.depth
        &&& 1 <= self.heap_decay
        &&& self.buckets@.len() == (self.depth as int) * (self.width as int)
        &&& self.lookups@.len() == LOOKUP_TABLE_CNT
        &&& self.lookups@[0] == DECAY_UNIT
        &&& (forall|i: int| 0 <= i < LOOKUP_TABLE_CNT ==> #[trigger] self.lookups@[i] <= DECAY_UNIT)
        &&& (forall|i: int|
            0 <= i < LOOKUP_TABLE_CNT - 1 ==> #[trigger] self.lookups@[i + 1] <= self.lookups@[i])
        &&& is_heap(self.min_heap@)
        &&& self.min_heap@.len() <= self.k
    }

    /// Decay-table shape: entry 0 is probability one, and entries never
    /// increase with the index.
    pub proof fn lemma_decay_table_shape(&self, i: int)
        requires
            self.wf(),
            0 <= i < LOOKUP_TABLE_CNT - 1,
        ensures
            self.table_at(0) == DECAY_UNIT,
            self.table_at(i + 1) <= self.table_at(i),
    {
    }

    /// The tracked items never outnumber the capacity.
    pub proof fn lemma_heap_bounded(&self)
        requires
            self.wf(),
        ensures
            self.heap_view().len() <= self.capacity(),
    {
    }

    /// The first tracked item carries the minimal count: what the
    /// admission rules compare estimates against is the heap's minimum.
    pub proof fn lemma_heap_view_root_min(&self, i: int)
        requires
            self.wf(),
            0 <= i < self.heap_view().len(),
        ensures
            self.heap_view()[0].cnt <= self.heap_view()[i].cnt,
    {
        crate::heap::lemma_heap_root_is_min::<Item>(self.min_heap@, i);
    }

    /// The decay table entry for count `i`, scaled by `DECAY_UNIT`.
    pub fn decay_table_entry(&self, i: usize) -> (r: u64)
        requires
            self.wf(),
            i < LOOKUP_TABLE_CNT,
        ensures
            r == self.table_at(i as int),
    {
        self.lookups[i]
    }

    /// Build an engine with `k` tracked slots, a `depth × width` grid
    /// of empty buckets, and the decay table `table[i] = base^i` in
    /// fixed point (`decay_base` is the decay probability scaled by
    /// `DECAY_UNIT`).
    pub fn new(k: u32, width: u32, depth: u32, decay_base: u64) -> (r: HeavyKeeper)
        requires
            1 <= k,
            1 <= width,
            1 <= depth,
            decay_base <= DECAY_UNIT,
            (depth as int) * (width as int) <= usize::MAX,
        ensures
            r.wf(),
            r.capacity() == k,
            r.grid_width() == width,
            r.grid_depth() == depth,
            r.decay_divisor() == 1,
            r.decay_interval_ms() == 1000,
            r.heap_view().len() == 0,
            forall|row: int, col: int|
                0 <= row < depth && 0 <= col < width ==> #[trigger] r.bucket_at(row, col) == (
                    0u32,
                    0u32,
                ),
            r.table_at(0) == DECAY_UNIT,
            forall|i: int|
                0 <= i < LOOKUP_TABLE_CNT - 1 ==> #[trigger] r.table_at(i + 1) == decay_step(
                    r.table_at(i),
                    decay_base,
                ),
    {
        let total = (depth as usize) * (width as usize);
        let mut buckets: Vec<Bucket> = Vec::new();
        let mut i: usize = 0;
        while i < total
            invariant
                i <= total,
                buckets@.len() == i,
                forall|p: int|
                    0 <= p < i ==> (#[trigger] buckets@[p]).fingerprint == 0 && buckets@[p].cnt
                        == 0,
            decreases total - i,
        {
            buckets.push(Bucket { fingerprint: 0, cnt: 0 });
            i = i + 1;
        }
        let mut lookups: Vec<u64> = Vec::new();
        lookups.push(DECAY_UNIT);
        let mut j: usize = 1;
        while j < LOOKUP_TABLE_CNT
            invariant
                1 <= j <= LOOKUP_TABLE_CNT,
                lookups@.len() == j,
                lookups@[0] == DECAY_UNIT,
                decay_base <= DECAY_UNIT,
                forall|p: int| 0 <= p < j ==> #[trigger] lookups@[p] <= DECAY_UNIT,
                forall|p: int|
                    0 <= p < j - 1 ==> #[trigger] lookups@[p + 1] == decay_step(
                        lookups@[p],
                        decay_base,
                    ),
                forall|p: int| 0 <= p < j - 1 ==> #[trigger] lookups@[p + 1] <= lookups@[p],
            decreases LOOKUP_TABLE_CNT - j,
        {
            let prev = lookups[j - 1];
            proof {
                let p = prev as int;
                let b = decay_base as int;
                let u = DECAY_UNIT as int;
                assert(p * b <= u * u && p * b <= p * u) by (nonlinear_arith)
                    requires
                        0 <= p,
                        0 <= b,
                        p <= u,
                        b <= u,
                ;
                assert((p * b) / u <= p && (p * b) / u <= u) by (nonlinear_arith)
                    requires
                        0 <= p,
                        0 <= b,
                        p * b <= p * u,
                        p * b <= u * u,
                        u == 0x1_0000_0000,
                ;
            }
            let next = (((prev as u128) * (decay_base as u128)) / (DECAY_UNIT as u128)) as u64;
            lookups.push(next);
            j = j + 1;
        }
        let r = HeavyKeeper {
            k,
            width,
            depth,
            lookups,
            buckets,
            min_heap: MinHeap::new(),
            last_heap_decay: instant_now(),
            heap_decay: 1,
            heap_decay_interval_ms: 1000,
        };
        proof {
            assert forall|row: int, col: int|
                0 <= row < depth && 0 <= col < width implies (#[trigger] r.bucket_at(row, col))
                == (0u32, 0u32) by {
                assert(0 <= row * (width as int) + col
                    && row * (width as int) + col < (depth as int) * (width as int))
                    by (nonlinear_arith)
                    requires
                        0 <= row < depth as int,
                        0 <= col < width as int,
                ;
                let idx = row * (width as int) + col;
                assert(r.buckets@[idx].fingerprint == 0 && r.buckets@[idx].cnt == 0);
            }
        }
        r
    }

    /// Set the heap-decay interval; takes effect on the next `add`.
    pub fn set_heap_decay_interval_ms(&mut self, heap_decay_interval_ms: u128)
        requires
            old(self).wf(),
        ensures
            final(self).wf(),
            final(self).decay_interval_ms() == heap_decay_interval_ms,
            final(self).decay_divisor() == old(self).decay_divisor(),
            final(self).capacity() == old(self).capacity(),
            final(self).grid_width() == old(self).grid_width(),
            final(self).grid_depth() == old(self).grid_depth(),
            final(self).heap_view() == old(self).heap_view(),
            forall|row: int, col: int|
                (#[trigger] final(self).bucket_at(row, col)) == old(self).bucket_at(row, col),
            forall|i: int| (#[trigger] final(self).table_at(i)) == old(self).table_at(i),
    {
        self.heap_decay_interval_ms = heap_decay_interval_ms;
    }

    /// Set the heap-decay divisor; 1 disables heap decay.
    pub fn set_heap_decay(&mut self, heap_decay: usize)
        requires
            old(self).wf(),
            1 <= heap_decay,
        ensures
            final(self).wf(),
            final(self).decay_divisor() == heap_decay,
            final(self).decay_interval_ms() == old(self).decay_interval_ms(),
            final(self).capacity() == old(self).capacity(),
            final(self).grid_width() == old(self).grid_width(),
            final(self).grid_depth() == old(self).grid_depth(),
            final(self).heap_view() == old(self).heap_view(),
            forall|row: int, col: int|
                (#[trigger] final(self).bucket_at(row, col)) == old(self).bucket_at(row, col),
            forall|i: int| (#[trigger] final(self).table_at(i)) == old(self).table_at(i),
    {
        self.heap_decay = heap_decay;
    }

    /// If heap decay is enabled and the configured interval has elapsed
    /// since the last decay, divide every tracked count by the divisor
    /// and reset the timer.  With divisor 1 this is a no-op; otherwise
    /// whether it fires depends on the clock, but with interval 0 it
    /// always fires.
    pub fn do_heap_decay(&mut self)
        requires
            old(self).wf(),
        ensures
            final(self).wf(),
            final(self).capacity() == old(self).capacity(),
            final(self).grid_width() == old(self).grid_width(),
            final(self).grid_depth() == old(self).grid_depth(),
            final(self).decay_divisor() == old(self).decay_divisor(),
            final(self).decay_interval_ms() == old(self).decay_interval_ms(),
            forall|row: int, col: int|
                (#[trigger] final(self).bucket_at(row, col)) == old(self).bucket_at(row, col),
            forall|i: int| (#[trigger] final(self).table_at(i)) == old(self).table_at(i),
            final(self).heap_view().len() == old(self).heap_view().len(),
            old(self).decay_divisor() == 1 ==> final(self).heap_view() == old(self).heap_view(),
            final(self).heap_view().to_multiset() == old(self).heap_view().to_multiset()
                || final(self).heap_view().to_multiset() == decayed(
                old(self).heap_view(),
                old(self).decay_divisor() as nat,
            ).to_multiset(),
            (old(self).decay_divisor() > 1 && old(self).decay_interval_ms() == 0)
                ==> final(self).heap_view().to_multiset() == decayed(
                old(self).heap_view(),
                old(self).decay_divisor() as nat,
            ).to_multiset(),
    {
        if self.heap_decay == 1 {
            return ;
        }
        let elapsed = duration_as_millis(&instant_elapsed(&self.last_heap_decay));
        if elapsed < self.heap_decay_interval_ms {
            return ;
        }
        let d = self.heap_decay;
        let ghost pre = self.min_heap@;
        let f = |it: Item| -> (r: Item)
            ensures
                r@ == (ItemV { key: it@.key, cnt: ((it@.cnt as nat) / (d as nat)) as u32 }),
            {
                Item { cnt: ((it.cnt as usize) / d) as u32, key: it.key }
            };
        self.min_heap.replace_with(f);
        proof {
            let m = choose|m: Seq<Item>|
                #![trigger m.to_multiset()]
                {
                    &&& m.len() == pre.len()
                    &&& (forall|q: int|
                        0 <= q < m.len() ==> call_ensures(f, (pre[q],), #[trigger] m[q]))
                    &&& self.min_heap@.to_multiset() == m.to_multiset()
                };
            assert(items_view(m) =~= decayed(items_view(pre), d as nat));
            lemma_map_multiset(self.min_heap@, m, |it: Item| it@);
            assert(items_view(self.min_heap@).to_multiset() == items_view(m).to_multiset());
        }
        self.last_heap_decay = instant_now();
    }

    /// Feed `incr` occurrences of the key into one grid row: claim the
    /// hashed bucket if empty, raise its count on a fingerprint match,
    /// or challenge the incumbent with decaying probability.  Returns
    /// the row's count estimate for the key (0 when the incumbent
    /// survives).
    #[verifier::rlimit(60)]
    fn sketch_row(&mut self, key: &[u8], row: u32, incr: u32, key_fp: u32) -> (m: u32)
        requires
            old(self).wf(),
            row < old(self).grid_depth(),
            key@.len() <= u32::MAX,
            key_fp == murmur3_spec(key@, 0),
        ensures
            final(self).wf(),
            final(self).k == old(self).k,
            final(self).width == old(self).width,
            final(self).depth == old(self).depth,
            final(self).lookups@ == old(self).lookups@,
            final(self).min_heap@ == old(self).min_heap@,
            final(self).heap_decay == old(self).heap_decay,
            final(self).heap_decay_interval_ms == old(self).heap_decay_interval_ms,
            forall|rr: int, cc: int|
                0 <= rr < old(self).grid_depth() && 0 <= cc < old(self).grid_width() && !(rr
                    == row && cc == col_of(key@, row as int, old(self).grid_width()))
                    ==> (#[trigger] final(self).bucket_at(rr, cc)) == old(self).bucket_at(rr, cc),
            bucket_step(
                old(self).bucket_at(row as int, col_of(key@, row as int, old(self).grid_width())),
                final(self).bucket_at(row as int, col_of(key@, row as int, old(self).grid_width())),
                key_fp,
                incr,
            ),
            m == ({
                let b = final(self).bucket_at(
                    row as int,
                    col_of(key@, row as int, old(self).grid_width()),
                );
                if b.0 == key_fp {
                    b.1
                } else {
                    0u32
                }
            }),
    {
        let width = self.width;
        let nb = self.buckets.len();
        let seed_fp = murmur3_32(key, row);
        let col = (seed_fp as usize) % (width as usize);
        proof {
            reveal(col_of);
            assert(col as int == col_of(key@, row as int, width));
            assert(0 <= (row as int) * (width as int) + (col as int) && (row as int) * (
            width as int) + (col as int) < (self.depth as int) * (width as int))
                by (nonlinear_arith)
                requires
                    0 <= (row as int) < (self.depth as int),
                    0 <= (col as int) < (width as int),
            ;
            assert((self.depth as int) * (width as int) == nb as int);
        }
        let idx = (row as usize) * (width as usize) + col;
        let ghost spre = *self;
        let b = self.buckets[idx];
        let mut m: u32 = 0;
        if b.cnt == 0 {
            self.buckets.set(idx, Bucket { fingerprint: key_fp, cnt: incr });
            m = incr;
        } else if b.fingerprint == key_fp {
            let newcnt = if b.cnt > u32::MAX - incr {
                u32::MAX
            } else {
                b.cnt + incr
            };
            self.buckets.set(idx, Bucket { fingerprint: key_fp, cnt: newcnt });
            m = newcnt;
        } else {
            let mut cnt = b.cnt;
            let mut lincr = incr;
            let mut claimed: u32 = 0;
            while lincr >= 1 && claimed == 0
                invariant
                    lincr <= incr,
                    self.lookups@ == spre.lookups@,
                    spre.wf(),
                    claimed == 0 ==> (cnt > 0 && cnt <= b.cnt && b.cnt - (incr - lincr) <= cnt),
                    claimed != 0 ==> 1 <= claimed <= incr,
                decreases lincr,
            {
                let table = if cnt < 256 {
                    self.lookups[cnt as usize]
                } else {
                    self.lookups[255]
                };
                let draw = random_u32();
                if (draw as u64) < table {
                    cnt = cnt - 1;
                    if cnt == 0 {
                        claimed = lincr;
                    }
                }
                lincr = lincr - 1;
            }
            if claimed > 0 {
                self.buckets.set(idx, Bucket { fingerprint: key_fp, cnt: claimed });
                m = claimed;
            } else {
                self.buckets.set(idx, Bucket { fingerprint: b.fingerprint, cnt });
            }
        }
        proof {
            let w = width as int;
            let ri = row as int;
            let ci = col as int;
            assert forall|rr: int, cc: int|
                0 <= rr < spre.grid_depth() && 0 <= cc < spre.grid_width() && !(rr == ri && cc
                    == ci) implies (#[trigger] self.bucket_at(rr, cc)) == spre.bucket_at(
                rr,
                cc,
            ) by {
                assert(0 <= rr * w + cc && rr * w + cc < (spre.grid_depth() as int) * w)
                    by (nonlinear_arith)
                    requires
                        0 <= rr < (spre.grid_depth() as int),
                        0 <= cc < w,
                ;
                if rr != ri {
                    assert(rr * w + cc != ri * w + ci) by (nonlinear_arith)
                        requires
                            0 <= rr,
                            0 <= cc < w,
                            0 <= ci < w,
                            rr != ri,
                            0 <= ri,
                    ;
                }
            }
            assert(bucket_step(spre.bucket_at(ri, ci), self.bucket_at(ri, ci), key_fp, incr));
        }
        m
    }

    /// Let a key with sketch estimate `max_cnt` compete for a heap
    /// slot: update it in place if already tracked, push it if the heap
    /// is below capacity, or displace the current minimum if the
    /// estimate strictly exceeds it.  Reports whether the key holds a
    /// slot; on a refusal the heap is exactly unchanged.
    #[verifier::rlimit(60)]
    fn compete(&mut self, key: &[u8], max_cnt: u32) -> (r: bool)
        requires
            old(self).wf(),
        ensures
            final(self).wf(),
            final(self).k == old(self).k,
            final(self).width == old(self).width,
            final(self).depth == old(self).depth,
            final(self).lookups@ == old(self).lookups@,
            final(self).buckets@ == old(self).buckets@,
            final(self).heap_decay == old(self).heap_decay,
            final(self).heap_decay_interval_ms == old(self).heap_decay_interval_ms,
            !r ==> old(self).heap_view().len() == old(self).capacity(),
            !r ==> final(self).heap_view() == old(self).heap_view(),
            r ==> contains_key(final(self).heap_view(), key@),
            old(self).heap_view().len() < old(self).capacity() ==> r,
            final(self).heap_view().len() == (
            if old(self).heap_view().len() < old(self).capacity() && !contains_key(
                old(self).heap_view(),
                key@,
            ) {
                old(self).heap_view().len() + 1
            } else {
                old(self).heap_view().len()
            }),
            r ==> heap_admitted(
                old(self).heap_view(),
                final(self).heap_view(),
                key@,
                max_cnt,
                old(self).k,
            ),
            r == (old(self).heap_view().len() < old(self).k || max_cnt > old(
                self,
            ).heap_view()[0].cnt || (contains_key(old(self).heap_view(), key@) && max_cnt >= old(
                self,
            ).heap_view()[0].cnt)),
    {
        let ghost hpre = self.min_heap@;
        let min_val = match self.min_heap.peek() {
            Some(x) => x.cnt(),
            None => 0,
        };
        let hlen = self.min_heap.len();
        proof {
            if hpre.len() > 0 {
                assert(items_view(hpre)[0] == hpre[0]@);
                assert(min_val == items_view(hpre)[0].cnt);
            }
        }
        if hlen == (self.k as usize) && max_cnt < min_val {
            return false;
        }
        let f = |it: Item| -> (res: (Item, bool))
            ensures
                ({
                    &&& res.1 == (it@.key == key@)
                    &&& (res.1 ==> res.0@ == ItemV { key: it@.key, cnt: max_cnt })
                    &&& (!res.1 ==> res.0 == it)
                }),
            {
                if bytes_eq(&it.key, key) {
                    (Item { key: it.key, cnt: max_cnt }, true)
                } else {
                    (it, false)
                }
            };
        let found = self.min_heap.replace_with_any(f);
        if found {
            proof {
                let (q, y) = choose|q: int, y: Item|
                    #![trigger call_ensures(f, (hpre[q],), (y, true))]
                    {
                        &&& 0 <= q < hpre.len()
                        &&& call_ensures(f, (hpre[q],), (y, true))
                        &&& (forall|p: int|
                            0 <= p < q ==> call_ensures(f, (hpre[p],), (hpre[p], false)))
                        &&& self.min_heap@.to_multiset() == hpre.to_multiset().insert(y).remove(
                            hpre[q],
                        )
                    };
                assert(hpre[q]@.key == key@);
                assert(contains_key(items_view(hpre), key@)) by {
                    assert(items_view(hpre)[q].key == key@);
                }
                assert(hpre.to_multiset().count(hpre[q]) > 0) by {
                    assert(hpre.contains(hpre[q]));
                }
                assert(self.min_heap@.to_multiset().count(y) > 0);
                assert(self.min_heap@.contains(y));
                let p = choose|p: int| 0 <= p < self.min_heap@.len() && self.min_heap@[p] == y;
                assert(items_view(self.min_heap@)[p].key == key@);
                assert(contains_key(items_view(self.min_heap@), key@));
                // the tracked item's count was replaced by the estimate
                let t = hpre.push(y).remove(q);
                assert(hpre.push(y)[q] == hpre[q]);
                assert(t.to_multiset() == hpre.push(y).to_multiset().remove(hpre[q]));
                assert(hpre.push(y).to_multiset() == hpre.to_multiset().insert(y));
                assert(self.min_heap@.to_multiset() == t.to_multiset());
                lemma_items_multiset(self.min_heap@, t);
                assert(items_view(t) =~= items_view(hpre).push(y@).remove(q));
                assert(items_view(hpre).push(y@)[q] == items_view(hpre)[q]);
                assert(items_view(hpre).push(y@).remove(q).to_multiset() == items_view(
                    hpre,
                ).push(y@).to_multiset().remove(items_view(hpre)[q]));
                assert(items_view(hpre).push(y@).to_multiset() == items_view(
                    hpre,
                ).to_multiset().insert(y@));
                assert(y@ == ItemV { key: key@, cnt: max_cnt });
                assert(items_view(self.min_heap@).to_multiset() == items_view(
                    hpre,
                ).to_multiset().insert(ItemV { key: key@, cnt: max_cnt }).remove(
                    items_view(hpre)[q],
                ));
                assert(heap_admitted(
                    items_view(hpre),
                    items_view(self.min_heap@),
                    key@,
                    max_cnt,
                    self.k,
                ));
                assert(heap_admitted(
                    old(self).heap_view(),
                    self.heap_view(),
                    key@,
                    max_cnt,
                    old(self).k,
                ));
            }
            return true;
        }
        proof {
            assert forall|q: int| 0 <= q < hpre.len() implies (#[trigger] items_view(hpre)[q]).key
                != key@ by {
                assert(call_ensures(f, (hpre[q],), (hpre[q], false)));
            }
            assert(!contains_key(items_view(hpre), key@));
        }
        let hlen2 = self.min_heap.len();
        if (self.k as usize) > hlen2 {
            let item = Item { key: bytes_to_vec(key), cnt: max_cnt };
            self.min_heap.push(item);
            proof {
                assert(self.min_heap@.to_multiset().count(item) > 0);
                assert(self.min_heap@.contains(item));
                let p = choose|p: int| 0 <= p < self.min_heap@.len() && self.min_heap@[p] == item;
                assert(items_view(self.min_heap@)[p].key == key@);
                assert(contains_key(items_view(self.min_heap@), key@));
                // a fresh key below capacity is simply added
                let t = hpre.push(item);
                assert(t.to_multiset() == hpre.to_multiset().insert(item));
                assert(self.min_heap@.to_multiset() == t.to_multiset());
                lemma_items_multiset(self.min_heap@, t);
                assert(items_view(t) =~= items_view(hpre).push(item@));
                assert(items_view(t).to_multiset() == items_view(hpre).to_multiset().insert(
                    item@,
                ));
                assert(item@ == ItemV { key: key@, cnt: max_cnt });
                assert(heap_admitted(
                    items_view(hpre),
                    items_view(self.min_heap@),
                    key@,
                    max_cnt,
                    self.k,
                ));
                assert(heap_admitted(
                    old(self).heap_view(),
                    self.heap_view(),
                    key@,
                    max_cnt,
                    old(self).k,
                ));
            }
            return true;
        }
        let min_val2 = match self.min_heap.peek() {
            Some(x) => x.cnt(),
            None => 0,
        };
        proof {
            if hpre.len() > 0 {
                assert(items_view(hpre)[0] == hpre[0]@);
                assert(min_val2 == items_view(hpre)[0].cnt);
            }
        }
        if max_cnt > min_val2 {
            let _ = self.min_heap.pop();
            let item = Item { key: bytes_to_vec(key), cnt: max_cnt };
            self.min_heap.push(item);
            proof {
                assert(self.min_heap@.to_multiset().count(item) > 0);
                assert(self.min_heap@.contains(item));
                let p = choose|p: int| 0 <= p < self.min_heap@.len() && self.min_heap@[p] == item;
                assert(items_view(self.min_heap@)[p].key == key@);
                assert(contains_key(items_view(self.min_heap@), key@));
                // the minimum made way for a strictly larger estimate
                let t = hpre.remove(0).push(item);
                assert(hpre.remove(0).to_multiset() == hpre.to_multiset().remove(hpre[0]));
                assert(t.to_multiset() == hpre.remove(0).to_multiset().insert(item));
                assert(self.min_heap@.to_multiset() == t.to_multiset());
                lemma_items_multiset(self.min_heap@, t);
                assert(items_view(t) =~= items_view(hpre).remove(0).push(item@));
                assert(items_view(hpre).remove(0).to_multiset() == items_view(
                    hpre,
                ).to_multiset().remove(items_view(hpre)[0]));
                assert(items_view(t).to_multiset() == items_view(hpre).to_multiset().remove(
                    items_view(hpre)[0],
                ).insert(item@));
                assert(items_view(hpre).contains(items_view(hpre)[0]));
                assert(items_view(hpre).to_multiset().count(items_view(hpre)[0]) > 0);
                assert(items_view(hpre).to_multiset().remove(items_view(hpre)[0]).insert(item@)
                    =~= items_view(hpre).to_multiset().insert(item@).remove(
                    items_view(hpre)[0],
                ));
                assert(item@ == ItemV { key: key@, cnt: max_cnt });
                assert(items_view(hpre)[0].cnt < max_cnt);
                assert(heap_admitted(
                    items_view(hpre),
                    items_view(self.min_heap@),
                    key@,
                    max_cnt,
                    self.k,
                ));
                assert(heap_admitted(
                    old(self).heap_view(),
                    self.heap_view(),
                    key@,
                    max_cnt,
                    old(self).k,
                ));
            }
            return true;
        }
        false
    }

    /// Feed `incr` occurrences of `key` into the sketch, then let the
    /// key compete for a top-k slot.
    ///
    /// Returns whether the key holds a heap slot after the call.  Every
    /// grid row changes at most the one bucket the key hashes to, and
    /// only as `bucket_step` allows.  With heap decay disabled, a
    /// `false` return leaves the heap exactly unchanged, and the heap
    /// grows only when it is below capacity and the key was not yet
    /// tracked.
    #[verifier::rlimit(60)]
    pub fn add(&mut self, key: &[u8], incr: u32) -> (r: bool)
        requires
            old(self).wf(),
            key@.len() <= u32::MAX,
        ensures
            final(self).wf(),
            final(self).capacity() == old(self).capacity(),
            final(self).grid_width() == old(self).grid_width(),
            final(self).grid_depth() == old(self).grid_depth(),
            final(self).decay_divisor() == old(self).decay_divisor(),
            final(self).decay_interval_ms() == old(self).decay_interval_ms(),
            forall|i: int| (#[trigger] final(self).table_at(i)) == old(self).table_at(i),
            forall|row: int, col: int|
                0 <= row < old(self).grid_depth() && 0 <= col < old(self).grid_width() && col
                    != col_of(key@, row, old(self).grid_width())
                    ==> (#[trigger] final(self).bucket_at(row, col)) == old(self).bucket_at(
                    row,
                    col,
                ),
            forall|row: int|
                0 <= row < old(self).grid_depth() ==> #[trigger] bucket_step(
                    old(self).bucket_at(row, col_of(key@, row, old(self).grid_width())),
                    final(self).bucket_at(row, col_of(key@, row, old(self).grid_width())),
                    murmur3_spec(key@, 0),
                    incr,
                ),
            final(self).heap_view().len() <= old(self).capacity(),
            !r ==> old(self).heap_view().len() == old(self).capacity(),
            r ==> contains_key(final(self).heap_view(), key@),
            old(self).heap_view().len() < old(self).capacity() ==> r,
            old(self).decay_divisor() == 1 ==> (!r ==> final(self).heap_view() == old(
                self,
            ).heap_view()),
            old(self).decay_divisor() == 1 ==> final(self).heap_view().len() == (
            if old(self).heap_view().len() < old(self).capacity() && !contains_key(
                old(self).heap_view(),
                key@,
            ) {
                old(self).heap_view().len() + 1
            } else {
                old(self).heap_view().len()
            }),
            !r ==> (final(self).heap_view().to_multiset() == old(self).heap_view().to_multiset()
                || final(self).heap_view().to_multiset() == decayed(
                old(self).heap_view(),
                old(self).decay_divisor() as nat,
            ).to_multiset()),
            old(self).decay_divisor() == 1 ==> (r ==> heap_admitted(
                old(self).heap_view(),
                final(self).heap_view(),
                key@,
                final(self).estimate_of(key@),
                old(self).capacity(),
            )),
            old(self).decay_divisor() == 1 ==> r == (old(self).heap_view().len() < old(
                self,
            ).capacity() || final(self).estimate_of(key@) > old(self).heap_view()[0].cnt || (
            contains_key(old(self).heap_view(), key@) && final(self).estimate_of(key@) >= old(
                self,
            ).heap_view()[0].cnt)),
            (old(self).decay_divisor() > 1 && old(self).decay_interval_ms() == 0) ==> (r
                ==> exists|mid: Seq<ItemV>|
                #![trigger mid.to_multiset()]
                {
                    &&& mid.to_multiset() == decayed(
                        old(self).heap_view(),
                        old(self).decay_divisor() as nat,
                    ).to_multiset()
                    &&& mid.len() == old(self).heap_view().len()
                    &&& (forall|i: int|
                        0 < i < mid.len() ==> mid[0].cnt <= (#[trigger] mid[i]).cnt)
                    &&& heap_admitted(
                        mid,
                        final(self).heap_view(),
                        key@,
                        final(self).estimate_of(key@),
                        old(self).capacity(),
                    )
                }),
    {
        self.do_heap_decay();
        let ghost mid = *self;
        let key_fp = murmur3_32(key, 0);
        let mut max_cnt: u32 = 0;
        let depth = self.depth;
        let mut row: u32 = 0;
        while row < depth
            invariant
                row <= depth,
                depth == mid.depth,
                mid.wf(),
                self.wf(),
                key_fp == murmur3_spec(key@, 0),
                key@.len() <= u32::MAX,
                self.k == mid.k,
                self.width == mid.width,
                self.depth == mid.depth,
                self.lookups@ == mid.lookups@,
                self.min_heap@ == mid.min_heap@,
                self.heap_decay == mid.heap_decay,
                self.heap_decay_interval_ms == mid.heap_decay_interval_ms,
                forall|rr: int, cc: int|
                    0 <= rr < depth && 0 <= cc < mid.grid_width() && !(rr < row && cc == col_of(
                        key@,
                        rr,
                        mid.grid_width(),
                    )) ==> (#[trigger] self.bucket_at(rr, cc)) == mid.bucket_at(rr, cc),
                forall|rr: int|
                    0 <= rr < row ==> #[trigger] bucket_step(
                        mid.bucket_at(rr, col_of(key@, rr, mid.grid_width())),
                        self.bucket_at(rr, col_of(key@, rr, mid.grid_width())),
                        key_fp,
                        incr,
                    ),
                max_cnt == self.estimate_upto(key@, row as int),
            decreases depth - row,
        {
            let ghost pre_it = *self;
            let m = self.sketch_row(key, row, incr, key_fp);
            if m > max_cnt {
                max_cnt = m;
            }
            proof {
                let w = mid.grid_width();
                assert forall|rr: int, cc: int|
                    0 <= rr < depth && 0 <= cc < w && !(rr < row + 1 && cc == col_of(
                        key@,
                        rr,
                        w,
                    )) implies (#[trigger] self.bucket_at(rr, cc)) == mid.bucket_at(rr, cc) by {
                    assert(self.bucket_at(rr, cc) == pre_it.bucket_at(rr, cc));
                    assert(pre_it.bucket_at(rr, cc) == mid.bucket_at(rr, cc));
                }
                assert forall|rr: int| 0 <= rr < row + 1 implies #[trigger] bucket_step(
                    mid.bucket_at(rr, col_of(key@, rr, w)),
                    self.bucket_at(rr, col_of(key@, rr, w)),
                    key_fp,
                    incr,
                ) by {
                    lemma_col_of_range(key@, rr, w);
                    if rr < row {
                        assert(self.bucket_at(rr, col_of(key@, rr, w)) == pre_it.bucket_at(
                            rr,
                            col_of(key@, rr, w),
                        ));
                        assert(bucket_step(
                            mid.bucket_at(rr, col_of(key@, rr, w)),
                            pre_it.bucket_at(rr, col_of(key@, rr, w)),
                            key_fp,
                            incr,
                        ));
                    } else {
                        assert(rr == row as int);
                        assert(bucket_step(
                            pre_it.bucket_at(rr, col_of(key@, rr, w)),
                            self.bucket_at(rr, col_of(key@, rr, w)),
                            key_fp,
                            incr,
                        ));
                        assert(pre_it.bucket_at(rr, col_of(key@, rr, w)) == mid.bucket_at(
                            rr,
                            col_of(key@, rr, w),
                        ));
                    }
                }
                // the running maximum covers exactly the rows done so far
                assert forall|rr: int|
                    0 <= rr < row as int implies #[trigger] pre_it.bucket_at(
                    rr,
                    col_of(key@, rr, pre_it.grid_width()),
                ) == self.bucket_at(rr, col_of(key@, rr, self.grid_width())) by {
                    lemma_col_of_range(key@, rr, w);
                }
                lemma_estimate_congruent(pre_it, *self, key@, row as int);
                assert(self.estimate_upto(key@, row as int + 1) == (
                if m > pre_it.estimate_upto(key@, row as int) {
                    m
                } else {
                    pre_it.estimate_upto(key@, row as int)
                }));
            }
            row = row + 1;
        }
        let ghost post_sketch = *self;
        let r = self.compete(key, max_cnt);
        proof {
            let w = old(self).grid_width();
            assert(w == mid.grid_width());
            assert forall|i: int| (#[trigger] self.table_at(i)) == old(self).table_at(i) by {
                assert(self.lookups@ == mid.lookups@);
                assert(mid.table_at(i) == old(self).table_at(i));
            }
            assert forall|rr: int, cc: int|
                0 <= rr < old(self).grid_depth() && 0 <= cc < w && cc != col_of(
                    key@,
                    rr,
                    w,
                ) implies (#[trigger] self.bucket_at(rr, cc)) == old(self).bucket_at(rr, cc) by {
                assert(self.bucket_at(rr, cc) == post_sketch.bucket_at(rr, cc));
                assert(post_sketch.bucket_at(rr, cc) == mid.bucket_at(rr, cc));
                assert(mid.bucket_at(rr, cc) == old(self).bucket_at(rr, cc));
            }
            assert forall|rr: int| 0 <= rr < old(self).grid_depth() implies #[trigger] bucket_step(
                old(self).bucket_at(rr, col_of(key@, rr, w)),
                self.bucket_at(rr, col_of(key@, rr, w)),
                murmur3_spec(key@, 0),
                incr,
            ) by {
                assert(bucket_step(
                    mid.bucket_at(rr, col_of(key@, rr, w)),
                    post_sketch.bucket_at(rr, col_of(key@, rr, w)),
                    key_fp,
                    incr,
                ));
                assert(self.bucket_at(rr, col_of(key@, rr, w)) == post_sketch.bucket_at(
                    rr,
                    col_of(key@, rr, w),
                ));
                assert(mid.bucket_at(rr, col_of(key@, rr, w)) == old(self).bucket_at(
                    rr,
                    col_of(key@, rr, w),
                ));
            }
            assert(post_sketch.heap_view() == mid.heap_view());
            assert(mid.heap_view().len() == old(self).heap_view().len());
            // the running maximum is exactly the sketch's estimate for
            // the key in the final grid
            assert(max_cnt == post_sketch.estimate_upto(key@, depth as int));
            assert forall|rr: int|
                0 <= rr < depth as int implies #[trigger] post_sketch.bucket_at(
                rr,
                col_of(key@, rr, post_sketch.grid_width()),
            ) == self.bucket_at(rr, col_of(key@, rr, self.grid_width())) by {
                lemma_col_of_range(key@, rr, w);
            }
            lemma_estimate_congruent(post_sketch, *self, key@, depth as int);
            assert(self.estimate_of(key@) == max_cnt);
            if old(self).decay_divisor() == 1 {
                assert(mid.heap_view() == old(self).heap_view());
                assert(post_sketch.k == old(self).capacity());
                if r {
                    assert(heap_admitted(
                        post_sketch.heap_view(),
                        self.heap_view(),
                        key@,
                        max_cnt,
                        post_sketch.k,
                    ));
                    assert(heap_admitted(
                        old(self).heap_view(),
                        self.heap_view(),
                        key@,
                        self.estimate_of(key@),
                        old(self).capacity(),
                    ));
                }
                assert(r == (old(self).heap_view().len() < old(self).capacity()
                    || self.estimate_of(key@) > old(self).heap_view()[0].cnt || (contains_key(
                    old(self).heap_view(),
                    key@,
                ) && self.estimate_of(key@) >= old(self).heap_view()[0].cnt)));
            }
            if old(self).decay_divisor() > 1 && old(self).decay_interval_ms() == 0 && r {
                let midv = post_sketch.heap_view();
                assert(midv.to_multiset() == decayed(
                    old(self).heap_view(),
                    old(self).decay_divisor() as nat,
                ).to_multiset());
                assert forall|i: int| 0 < i < midv.len() implies midv[0].cnt <= (
                #[trigger] midv[i]).cnt by {
                    crate::heap::lemma_heap_root_is_min::<Item>(post_sketch.min_heap@, i);
                }
                assert(heap_admitted(
                    midv,
                    self.heap_view(),
                    key@,
                    self.estimate_of(key@),
                    old(self).capacity(),
                ));
            }
            if !r {
                assert(self.heap_view() == post_sketch.heap_view());
            }
        }
        r
    }

    /// A snapshot of the tracked items in descending order: highest
    /// count first, ties broken toward lexicographically smaller keys.
    pub fn list(&self) -> (r: Vec<Item>)
        requires
            self.wf(),
        ensures
            items_view(r@).to_multiset() == self.heap_view().to_multiset(),
            sorted_desc(items_view(r@)),
    {
        let mut data = self.min_heap.list();
        let ghost d0 = data@;
        proof {
            assert(items_view(d0) =~= items_view(self.min_heap@));
        }
        let n = data.len();
        let mut i: usize = 1;
        while i < n
            invariant
                1 <= i,
                i <= n || n == 0,
                n == data@.len(),
                data@.to_multiset() == d0.to_multiset(),
                forall|a: int, b: int|
                    0 <= a < b < i ==> item_le((#[trigger] data@[b])@, (#[trigger] data@[a])@),
            decreases n - i,
        {
            let mut j = i;
            while j > 0 && data[j - 1].less(&data[j])
                invariant
                    j <= i < n,
                    n == data@.len(),
                    data@.to_multiset() == d0.to_multiset(),
                    forall|a: int, b: int|
                        0 <= a < b <= i && b != j && a != j ==> item_le(
                            (#[trigger] data@[b])@,
                            (#[trigger] data@[a])@,
                        ),
                    forall|b: int|
                        j < b <= i ==> item_le((#[trigger] data@[b])@, data@[j as int]@),
                decreases j,
            {
                let ghost dpre = data@;
                proof {
                    lemma_item_le_total(dpre[j - 1]@, dpre[j as int]@);
                    assert(item_le(dpre[j - 1]@, dpre[j as int]@));
                }
                exchange(&mut data, j - 1, j);
                proof {
                    let jj = j as int;
                    assert forall|a: int, b: int|
                        0 <= a < b <= i && b != jj - 1 && a != jj - 1 implies item_le(
                        (#[trigger] data@[b])@,
                        (#[trigger] data@[a])@,
                    ) by {
                        if b == jj {
                            assert(item_le(dpre[jj - 1]@, dpre[a]@));
                        } else if a == jj {
                            assert(item_le(dpre[b]@, dpre[jj - 1]@));
                        } else {
                            assert(item_le(dpre[b]@, dpre[a]@));
                        }
                    }
                    assert forall|b: int| jj - 1 < b <= i implies item_le(
                        (#[trigger] data@[b])@,
                        data@[jj - 1]@,
                    ) by {
                        if b == jj {
                            assert(data@[b]@ == dpre[jj - 1]@ && data@[jj - 1]@ == dpre[jj]@);
                        } else {
                            assert(item_le(dpre[b]@, dpre[jj]@));
                        }
                    }
                }
                j = j - 1;
            }
            proof {
                let jj = j as int;
                assert forall|a: int, b: int| 0 <= a < b <= i implies item_le(
                    (#[trigger] data@[b])@,
                    (#[trigger] data@[a])@,
                ) by {
                    if b == jj {
                        // the loop stopped because the element is in place
                        assert(jj > 0);
                        assert(item_le(data@[jj]@, data@[jj - 1]@));
                        if a < jj - 1 {
                            assert(item_le(data@[jj - 1]@, data@[a]@));
                            lemma_item_le_trans(data@[jj]@, data@[jj - 1]@, data@[a]@);
                        }
                    } else if a == jj {
                        assert(item_le(data@[b]@, data@[jj]@));
                    } else {
                        assert(item_le(data@[b]@, data@[a]@));
                    }
                }
            }
            i = i + 1;
        }
        proof {
            lemma_map_multiset(data@, d0, |it: Item| it@);
            assert(items_view(data@).to_multiset() == items_view(d0).to_multiset());
            assert(sorted_desc(items_view(data@))) by {
                assert forall|a: int, b: int|
                    0 <= a < b < items_view(data@).len() implies item_le(
                    #[trigger] items_view(data@)[b],
                    #[trigger] items_view(data@)[a],
                ) by {
                    assert(item_le(data@[b]@, data@[a]@));
                }
            }
        }
        data
    }
}

} // verus!
