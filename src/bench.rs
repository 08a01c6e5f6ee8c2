//! The workload: operation mixes, the shuffled operation template, the pool of
//! distinct keys, and the loop that drives one thread's share of operations.
use rand::distributions::{Distribution, Standard};
use rand::seq::SliceRandom;
use vstd::prelude::*;

verus! {

/// Relies on `rand::random`: a value drawn from the thread-local generator.
/// Nothing is promised of it.
pub assume_specification<T>[ rand::random::<T> ]() -> (r: T)
    where
        Standard: Distribution<T>,
;

/// A handle through which one thread works on a collection. Each operation
/// reports whether it found what it expected: the key present for `get`,
/// `remove` and `update`, absent for `insert`.
pub trait CollectionHandle {
    fn get(&self, key: &u64) -> bool;

    fn insert(&self, key: u64) -> bool;

    fn remove(&self, key: &u64) -> bool;

    /// Increments the value of `key`.
    fn update(&self, key: &u64) -> bool;
}

/// A collection under test: each thread pins its own handle.
pub trait Collection {
    type Handle: CollectionHandle;

    fn pin(&self) -> Self::Handle;

    fn prefill_complete(&self);
}

#[derive(Clone, Copy, Debug, PartialEq, Eq, Structural)]
pub enum Operation {
    Read,
    Insert,
    Remove,
    Update,
    Upsert,
}

/// Percentages of each kind of operation.
#[derive(Clone, Copy, Debug)]
pub struct Mix {
    pub read: usize,
    pub insert: usize,
    pub remove: usize,
    pub update: usize,
    pub upsert: usize,
}

/// The unshuffled template of a mix: its reads, then inserts, removes, updates
/// and upserts, each repeated as often as the mix says.
pub open spec fn template(m: Mix) -> Seq<Operation> {
    Seq::new(m.read as nat, |i: int| Operation::Read).add(
        Seq::new(m.insert as nat, |i: int| Operation::Insert),
    ).add(Seq::new(m.remove as nat, |i: int| Operation::Remove)).add(
        Seq::new(m.update as nat, |i: int| Operation::Update),
    ).add(Seq::new(m.upsert as nat, |i: int| Operation::Upsert))
}

pub open spec fn mix_total(m: Mix) -> int {
    m.read + m.insert + m.remove + m.update + m.upsert
}

/// Relies on rand's `SliceRandom::shuffle` with the thread-local generator,
/// which permutes the slice by swaps.
#[verifier::external_body]
fn shuffle_ops(ops: &mut Vec<Operation>)
    ensures
        final(ops)@.to_multiset() == old(ops)@.to_multiset(),
{
    ops.shuffle(&mut rand::thread_rng());
}

/// Appends `n` copies of `op`.
fn push_repeated(list: &mut Vec<Operation>, op: Operation, n: usize)
    requires
        old(list)@.len() + n <= usize::MAX,
    ensures
        final(list)@ == old(list)@.add(Seq::new(n as nat, |i: int| op)),
{
    let mut j: usize = 0;
    while j < n
        invariant
            j <= n,
            list@ == old(list)@.add(Seq::new(j as nat, |i: int| op)),
        decreases n - j,
    {
        list.push(op);
        j = j + 1;
        assert(list@ =~= old(list)@.add(Seq::new(j as nat, |i: int| op)));
    }
}

impl Mix {
    /// About 95% reads, with a few modifications of each kind.
    pub fn read_heavy() -> (r: Self)
        ensures
            r == (Mix { read: 95, insert: 2, remove: 1, update: 1, upsert: 1 }),
    {
        Mix { read: 95, insert: 2, update: 1, remove: 1, upsert: 1 }
    }

    /// Reads only.
    pub fn read_only() -> (r: Self)
        ensures
            r == (Mix { read: 100, insert: 0, remove: 0, update: 0, upsert: 0 }),
    {
        Mix { read: 100, insert: 0, update: 0, remove: 0, upsert: 0 }
    }

    /// 99% reads, 1% inserts.
    pub fn read_99() -> (r: Self)
        ensures
            r == (Mix { read: 99, insert: 1, remove: 0, update: 0, upsert: 0 }),
    {
        Mix { read: 99, insert: 1, update: 0, remove: 0, upsert: 0 }
    }

    /// Reads only.
    pub fn read_100() -> (r: Self)
        ensures
            r == (Mix { read: 100, insert: 0, remove: 0, update: 0, upsert: 0 }),
    {
        Mix { read: 100, insert: 0, update: 0, remove: 0, upsert: 0 }
    }

    /// The operations of the mix in their fixed order.
    pub fn op_template(&self) -> (r: Vec<Operation>)
        requires
            mix_total(*self) <= usize::MAX,
        ensures
            r@ == template(*self),
    {
        let mut list: Vec<Operation> = Vec::with_capacity(100);
        push_repeated(&mut list, Operation::Read, self.read);
        push_repeated(&mut list, Operation::Insert, self.insert);
        push_repeated(&mut list, Operation::Remove, self.remove);
        push_repeated(&mut list, Operation::Update, self.update);
        push_repeated(&mut list, Operation::Upsert, self.upsert);
        list
    }

    /// The operations of the mix in a random order.
    pub fn to_ops(&self) -> (r: Vec<Operation>)
        requires
            mix_total(*self) == 100,
        ensures
            r@.to_multiset() == template(*self).to_multiset(),
            r@.len() == mix_total(*self),
    {
        let mut list = self.op_template();
        shuffle_ops(&mut list);
        proof {
            list@.to_multiset_ensures();
            template(*self).to_multiset_ensures();
        }
        list
    }
}

/// No two positions hold the same key.
pub open spec fn pairwise_distinct(s: Seq<u64>) -> bool {
    forall|i: int, j: int| 0 <= i < s.len() && 0 <= j < s.len() && i != j ==> s[i] != s[j]
}

proof fn lemma_xor_injective(a: u64, b: u64, mask: u64)
    ensures
        (a ^ mask == b ^ mask) == (a == b),
{
    assert((a ^ mask == b ^ mask) == (a == b)) by (bit_vector);
}

/// A pool of distinct keys and a cursor that splits the keys handed out for
/// insertion from those not yet used.
pub struct Keys {
    allocated: usize,
    keys: Vec<u64>,
}

impl View for Keys {
    type V = Seq<u64>;

    closed spec fn view(&self) -> Seq<u64> {
        self.keys@
    }
}

impl Keys {
    pub closed spec fn wf(&self) -> bool {
        self.allocated <= self.keys@.len()
    }

    /// How many keys have been handed out.
    pub closed spec fn spec_allocated(&self) -> nat {
        self.allocated as nat
    }

    /// `total_keys` pairwise distinct keys: each position, scrambled by a
    /// mask drawn at random for the whole pool.
    pub fn new(total_keys: usize) -> (r: Self)
        ensures
            r.wf(),
            r@.len() == total_keys,
            pairwise_distinct(r@),
            r.spec_allocated() == 0,
    {
        let mask: u64 = rand::random::<u64>();
        let mut keys: Vec<u64> = Vec::with_capacity(total_keys);
        let mut i: usize = 0;
        while i < total_keys
            invariant
                i <= total_keys,
                keys@.len() == i,
                forall|j: int| 0 <= j < i ==> #[trigger] keys@[j] == (j as u64) ^ mask,
            decreases total_keys - i,
        {
            keys.push((i as u64) ^ mask);
            i = i + 1;
        }
        assert forall|a: int, b: int|
            0 <= a < keys@.len() && 0 <= b < keys@.len() && a != b implies keys@[a] != keys@[b] by {
            lemma_xor_injective(a as u64, b as u64, mask);
        }
        Keys { allocated: 0, keys }
    }

    /// The number of keys in the pool.
    pub fn len(&self) -> (r: usize)
        ensures
            r == self@.len(),
    {
        self.keys.len()
    }

    /// How many keys have been handed out.
    pub fn allocated(&self) -> (r: usize)
        ensures
            r == self.spec_allocated(),
    {
        self.allocated
    }

    /// A copy of the pool and its cursor.
    pub fn clone_pool(&self) -> (r: Self)
        requires
            self.wf(),
        ensures
            r.wf(),
            r@ == self@,
            r.spec_allocated() == self.spec_allocated(),
    {
        let mut keys: Vec<u64> = Vec::with_capacity(self.keys.len());
        let mut j: usize = 0;
        while j < self.keys.len()
            invariant
                j <= self.keys@.len(),
                keys@ == self.keys@.subrange(0, j as int),
            decreases self.keys@.len() - j,
        {
            keys.push(self.keys[j]);
            j = j + 1;
            assert(keys@ =~= self.keys@.subrange(0, j as int));
        }
        assert(keys@ =~= self.keys@);
        Keys { allocated: self.allocated, keys }
    }

    /// Takes back every key handed out.
    pub fn reset(&mut self)
        requires
            old(self).wf(),
        ensures
            final(self).wf(),
            final(self)@ == old(self)@,
            final(self).spec_allocated() == 0,
    {
        self.allocated = 0;
    }

    /// The key that the random number `i` picks among those handed out.
    pub fn random(&self, i: usize) -> (r: u64)
        requires
            self.wf(),
            self.spec_allocated() > 0,
        ensures
            r == self@[(i % (self.spec_allocated() as usize)) as int],
    {
        self.keys[i % self.allocated]
    }

    /// Hands out the next `count` keys.
    pub fn alloc_n(&mut self, count: usize) -> (r: Vec<u64>)
        requires
            old(self).wf(),
            old(self).spec_allocated() + count <= old(self)@.len(),
        ensures
            final(self).wf(),
            final(self)@ == old(self)@,
            final(self).spec_allocated() == old(self).spec_allocated() + count,
            r@ == old(self)@.subrange(
                old(self).spec_allocated() as int,
                old(self).spec_allocated() + count,
            ),
    {
        let start = self.allocated;
        let len = self.keys.len();
        let mut r: Vec<u64> = Vec::with_capacity(count);
        let mut j: usize = 0;
        while j < count
            invariant
                j <= count,
                start + count <= self.keys@.len(),
                len == self.keys@.len(),
                r@ == self.keys@.subrange(start as int, start + j),
            decreases count - j,
        {
            r.push(self.keys[start + j]);
            j = j + 1;
            assert(r@ =~= self.keys@.subrange(start as int, start + j));
        }
        self.allocated = start + count;
        r
    }
}

/// The shape of one run of a workload.
pub struct RunConfig {
    pub thread_count: usize,
    pub total_ops: usize,
    pub prefill: usize,
    pub operations: Vec<Operation>,
    pub keys_needed_per_thread: usize,
}

impl RunConfig {
    /// Each thread's share of the operations.
    pub fn ops_per_thread(&self) -> (r: usize)
        requires
            self.thread_count > 0,
        ensures
            r == self.total_ops / self.thread_count,
    {
        self.total_ops / self.thread_count
    }
}

/// The average latency of an operation in nanoseconds, from the summed
/// milliseconds of all threads.
pub fn average_latency_ns(total_milliseconds: u64, total_ops: u64) -> (r: u64)
    requires
        total_ops > 0,
        total_milliseconds <= u64::MAX / 1_000_000,
    ensures
        r == (total_milliseconds * 1_000_000) as int / (total_ops as int),
{
    total_milliseconds * 1_000_000 / total_ops
}

/// Inserts `count` keys through `inserter`, cycling through `new_keys` from
/// the first. Returns how many inserts reported failure.
pub fn prefill<H: CollectionHandle>(inserter: &H, new_keys: &Vec<u64>, count: usize) -> (r: usize)
    requires
        count > 0 ==> new_keys@.len() > 0,
    ensures
        r <= count,
{
    let len = new_keys.len();
    let mut failures: usize = 0;
    let mut j: usize = 0;
    let mut i: usize = 0;
    while i < count
        invariant
            len == new_keys@.len(),
            i <= count,
            count > 0 ==> len > 0,
            len > 0 ==> j < len,
            failures <= i,
        decreases count - i,
    {
        let k = new_keys[j];
        failures = tally(failures, inserter.insert(k));
        j = if j + 1 == len {
            0
        } else {
            j + 1
        };
        i = i + 1;
    }
    failures
}

/// The operation at step `i` of a run: the template entry `i` modulo its
/// length; for an insert, the index of the new key it takes, `next_new`; and
/// the index of the new key that the next insert takes, which moves on
/// cyclically only after an insert.
pub fn next_op(op_mix: &Vec<Operation>, i: usize, next_new: usize, new_keys_len: usize) -> (r: (
    Operation,
    usize,
    usize,
))
    requires
        op_mix@.len() > 0,
        op_mix@.contains(Operation::Insert) ==> new_keys_len > 0 && next_new < new_keys_len,
    ensures
        r.0 == op_mix@[(i % (op_mix@.len() as usize)) as int],
        r.1 == next_new,
        r.0 == Operation::Insert ==> r.2 == (next_new + 1) % (new_keys_len as int) && r.1
            < new_keys_len,
        r.0 != Operation::Insert ==> r.2 == next_new,
{
    let op = op_mix[i % op_mix.len()];
    if op == Operation::Insert {
        proof {
            assert(op_mix@[(i % op_mix@.len() as usize) as int] == Operation::Insert);
            assert(op_mix@.contains(Operation::Insert));
        }
        let following = if next_new + 1 == new_keys_len {
            0
        } else {
            next_new + 1
        };
        proof {
            if next_new + 1 == new_keys_len {
                vstd::arithmetic::div_mod::lemma_mod_self_0(new_keys_len as int);
            } else {
                vstd::arithmetic::div_mod::lemma_small_mod((next_new + 1) as nat, new_keys_len as nat);
            }
        }
        (op, next_new, following)
    } else {
        (op, next_new, next_new)
    }
}

/// The count of failed operations after one more operation.
pub fn tally(failures: usize, success: bool) -> (r: usize)
    requires
        !success ==> failures < usize::MAX,
    ensures
        r == failures + if success { 0int } else { 1int },
{
    if success {
        failures
    } else {
        failures + 1
    }
}

/// Runs `ops_per_thread` operations on `dict`, taking the kind of the i-th from
/// the template in turn, picking keys at random among those handed out, and
/// cycling through `new_keys` for inserts. Returns how many operations
/// reported failure.
pub fn run_ops<H: CollectionHandle>(
    dict: &H,
    keys: &Keys,
    op_mix: &Vec<Operation>,
    ops_per_thread: usize,
    new_keys: &Vec<u64>,
) -> (r: usize)
    requires
        keys.wf(),
        keys.spec_allocated() > 0,
        op_mix@.len() > 0,
        op_mix@.contains(Operation::Insert) ==> new_keys@.len() > 0,
    ensures
        r <= ops_per_thread,
{
    let op_mix_count = op_mix.len();
    let new_keys_count = new_keys.len();
    let mut failures: usize = 0;
    let mut next_new: usize = 0;
    let mut i: usize = 0;
    while i < ops_per_thread
        invariant
            keys.wf(),
            keys.spec_allocated() > 0,
            op_mix_count == op_mix@.len(),
            op_mix_count > 0,
            op_mix@.contains(Operation::Insert) ==> new_keys@.len() > 0,
            new_keys_count == new_keys@.len(),
            new_keys@.len() > 0 ==> next_new < new_keys@.len(),
            i <= ops_per_thread,
            failures <= i,
        decreases ops_per_thread - i,
    {
        let (op, insert_index, following) = next_op(op_mix, i, next_new, new_keys_count);
        let r: usize = rand::random::<usize>();
        let success = match op {
            Operation::Read => dict.get(&keys.random(r)),
            Operation::Insert => dict.insert(new_keys[insert_index]),
            Operation::Remove => dict.remove(&keys.random(r)),
            Operation::Update => dict.update(&keys.random(r)),
            Operation::Upsert => dict.update(&keys.random(r)),
        };
        next_new = following;
        failures = tally(failures, success);
        i = i + 1;
    }
    failures
}

} // verus!
