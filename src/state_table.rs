//! A set of board states, each kept at the index it was added under, with
//! lookup through buckets chosen by a hash of the cells.
use vstd::prelude::*;
use vstd::arithmetic::power::pow;

verus! {

/// How many buckets a table spreads its states over.
pub const NUM_BUCKETS: usize = 16384;

/// The bucket of a state: a polynomial hash of its cells, reduced at each
/// step.
pub open spec fn bucket_of(s: Seq<u8>) -> nat
    decreases s.len(),
{
    if s.len() == 0 {
        0
    } else {
        (bucket_of(s.drop_last()) * 31 + s.last() as nat) % (NUM_BUCKETS as nat)
    }
}

/// The bucket of the cells of `s`.
fn bucket_index(s: &Vec<u8>) -> (r: usize)
    ensures
        r == bucket_of(s@),
        r < NUM_BUCKETS,
{
    let mut acc: usize = 0;
    let mut i: usize = 0;
    assert(s@.take(0) =~= Seq::<u8>::empty());
    while i < s.len()
        invariant
            i <= s@.len(),
            acc == bucket_of(s@.take(i as int)),
            acc < NUM_BUCKETS,
        decreases s@.len() - i,
    {
        assert(s@.take(i + 1).drop_last() =~= s@.take(i as int));
        acc = (acc * 31 + s[i] as usize) % NUM_BUCKETS;
        i = i + 1;
    }
    assert(s@.take(s@.len() as int) =~= s@);
    acc
}

/// Whether two states hold the same cells.
pub fn same_tiles(a: &Vec<u8>, b: &Vec<u8>) -> (r: bool)
    ensures
        r == (a@ == b@),
{
    if a.len() != b.len() {
        return false;
    }
    let mut i: usize = 0;
    while i < a.len()
        invariant
            a@.len() == b@.len(),
            i <= a@.len(),
            forall|k: int| 0 <= k < i ==> a@[k] == b@[k],
        decreases a@.len() - i,
    {
        if a[i] != b[i] {
            return false;
        }
        i = i + 1;
    }
    assert(a@ =~= b@);
    true
}

/// Distinct board states, in the order they were added.
///
/// vstd specifies `HashMap` lookups only for keys whose hashing it models,
/// integers among them but not `Vec<u8>`; so the search keeps its visited
/// set here, where lookups are proved. Since states are added in the order
/// the search reaches them, the index of the next state to expand also
/// serves as the search's queue.
pub struct StateTable {
    states: Vec<Vec<u8>>,
    buckets: Vec<Vec<usize>>,
}

impl View for StateTable {
    type V = Seq<Seq<u8>>;

    closed spec fn view(&self) -> Seq<Seq<u8>> {
        self.states@.map_values(|v: Vec<u8>| v@)
    }
}

impl StateTable {
    /// Each state is listed in its bucket, each bucket lists states of the
    /// table, and no state is held twice.
    pub closed spec fn wf(&self) -> bool {
        &&& self.buckets@.len() == NUM_BUCKETS
        &&& forall|i: int|
            0 <= i < self.states@.len() ==> (#[trigger] self.buckets@[bucket_of(
                self.states@[i]@,
            ) as int])@.contains(i as usize)
        &&& forall|b: int, j: int|
            0 <= b < self.buckets@.len() && 0 <= j < self.buckets@[b]@.len() ==> (
            #[trigger] self.buckets@[b]@[j]) < self.states@.len()
        &&& self@.no_duplicates()
    }

    /// A well-formed table holds no state twice.
    pub proof fn lemma_distinct(&self)
        requires
            self.wf(),
        ensures
            self@.no_duplicates(),
    {
    }

    /// An empty table.
    pub fn new() -> (r: StateTable)
        ensures
            r.wf(),
            r@ == Seq::<Seq<u8>>::empty(),
    {
        let mut buckets: Vec<Vec<usize>> = Vec::with_capacity(NUM_BUCKETS);
        let mut b: usize = 0;
        while b < NUM_BUCKETS
            invariant
                b <= NUM_BUCKETS,
                buckets@.len() == b,
                forall|k: int| 0 <= k < b ==> (#[trigger] buckets@[k])@.len() == 0,
            decreases NUM_BUCKETS - b,
        {
            buckets.push(Vec::new());
            b = b + 1;
        }
        let r = StateTable { states: Vec::new(), buckets };
        assert(r@ =~= Seq::<Seq<u8>>::empty());
        r
    }

    /// How many states the table holds.
    pub fn len(&self) -> (r: usize)
        ensures
            r == self@.len(),
    {
        self.states.len()
    }

    /// The state added under index `i`.
    pub fn get(&self, i: usize) -> (r: &Vec<u8>)
        requires
            i < self@.len(),
        ensures
            r@ == self@[i as int],
    {
        &self.states[i]
    }

    /// The index under which `s` was added, if it was.
    pub fn find(&self, s: &Vec<u8>) -> (r: Option<usize>)
        requires
            self.wf(),
        ensures
            match r {
                Some(i) => i < self@.len() && self@[i as int] == s@,
                None => !self@.contains(s@),
            },
    {
        let b = bucket_index(s);
        let bucket = &self.buckets[b];
        let mut j: usize = 0;
        while j < bucket.len()
            invariant
                self.wf(),
                b == bucket_of(s@),
                bucket == &self.buckets@[b as int],
                j <= bucket@.len(),
                forall|k: int| 0 <= k < j ==> self@[#[trigger] bucket@[k] as int] != s@,
            decreases bucket@.len() - j,
        {
            let i = bucket[j];
            assert(bucket@[j as int] < self.states@.len());
            if same_tiles(&self.states[i], s) {
                return Some(i);
            }
            j = j + 1;
        }
        let count = self.states.len();
        proof {
            if self@.contains(s@) {
                let i = choose|i: int| 0 <= i < self@.len() && self@[i] == s@;
                assert(self@[i] == self.states@[i]@);
                assert(i < count);
                assert(bucket_of(self.states@[i]@) == b);
                assert(self.buckets@[bucket_of(self.states@[i]@) as int]@.contains(i as usize));
                let k = choose|k: int| 0 <= k < bucket@.len() && bucket@[k] == i as usize;
                assert(self@[bucket@[k] as int] != s@);
            }
        }
        None
    }

    /// Add `s`, which the table does not hold yet, under the next index.
    pub fn push(&mut self, s: Vec<u8>)
        requires
            old(self).wf(),
            !old(self)@.contains(s@),
        ensures
            final(self).wf(),
            final(self)@ == old(self)@.push(s@),
    {
        let b = bucket_index(&s);
        let i = self.states.len();
        let ghost old_buckets = self.buckets@;
        let ghost old_view = self@;
        self.states.push(s);
        self.buckets[b].push(i);
        assert(self@ =~= old_view.push(s@));
        assert forall|k: int| 0 <= k < self.states@.len() implies (#[trigger] self.buckets@[bucket_of(
            self.states@[k]@,
        ) as int])@.contains(k as usize) by {
            let bk = bucket_of(self.states@[k]@) as int;
            if k < i {
                let w = choose|w: int|
                    0 <= w < old_buckets[bk]@.len() && old_buckets[bk]@[w] == k as usize;
                assert(self.buckets@[bk]@[w] == k as usize);
            } else {
                assert(self.buckets@[bk]@[old_buckets[bk]@.len() as int] == k as usize);
            }
        }
        assert forall|c: int, j: int|
            0 <= c < self.buckets@.len() && 0 <= j < self.buckets@[c]@.len() implies (
            #[trigger] self.buckets@[c]@[j]) < self.states@.len() by {
            if c != b || j < old_buckets[c]@.len() {
                assert(self.buckets@[c]@[j] == old_buckets[c]@[j]);
            }
        }
    }
}

/// The number a state spells as digits in base 256, first cell lowest.
pub open spec fn state_code(s: Seq<u8>) -> nat
    decreases s.len(),
{
    if s.len() == 0 {
        0
    } else {
        s[0] as nat + 256 * state_code(s.drop_first())
    }
}

proof fn lemma_code_bound(s: Seq<u8>)
    ensures
        state_code(s) < pow(256, s.len()),
    decreases s.len(),
{
    vstd::arithmetic::power::lemma_pow_positive(256, s.len());
    if s.len() > 0 {
        lemma_code_bound(s.drop_first());
        let p = pow(256, s.drop_first().len());
        assert(pow(256, s.len()) == 256 * p) by {
            vstd::arithmetic::power::lemma_pow_adds(256, 1, s.drop_first().len());
            vstd::arithmetic::power::lemma_pow1(256);
        }
        let c = state_code(s.drop_first());
        let d = s[0] as nat;
        assert(d + 256 * c < 256 * p) by (nonlinear_arith)
            requires
                d < 256,
                c < p,
        ;
    }
}

proof fn lemma_code_injective(s: Seq<u8>, t: Seq<u8>)
    requires
        s.len() == t.len(),
        state_code(s) == state_code(t),
    ensures
        s == t,
    decreases s.len(),
{
    if s.len() > 0 {
        let a = s[0] as int;
        let b = t[0] as int;
        let x = state_code(s.drop_first()) as int;
        let y = state_code(t.drop_first()) as int;
        assert(a == b && x == y) by (nonlinear_arith)
            requires
                0 <= a < 256,
                0 <= b < 256,
                a + 256 * x == b + 256 * y,
        ;
        lemma_code_injective(s.drop_first(), t.drop_first());
        assert(s =~= seq![s[0]] + s.drop_first());
        assert(t =~= seq![t[0]] + t.drop_first());
    }
}

/// There are at most `256^n` distinct states of `n` cells.
pub proof fn lemma_distinct_states_bound(ss: Seq<Seq<u8>>, n: nat)
    requires
        ss.no_duplicates(),
        forall|i: int| 0 <= i < ss.len() ==> (#[trigger] ss[i]).len() == n,
    ensures
        ss.len() <= pow(256, n),
{
    let codes = ss.map_values(|s: Seq<u8>| state_code(s) as int);
    assert forall|i: int, j: int| 0 <= i < codes.len() && 0 <= j < codes.len() && i != j implies codes[i]
        != codes[j] by {
        if codes[i] == codes[j] {
            lemma_code_injective(ss[i], ss[j]);
        }
    }
    assert(codes.no_duplicates());
    codes.unique_seq_to_set();
    let bound = pow(256, n);
    vstd::arithmetic::power::lemma_pow_positive(256, n);
    assert forall|k: int| codes.to_set().contains(k) implies vstd::set_lib::set_int_range(
        0,
        bound,
    ).contains(k) by {
        let i = choose|i: int| 0 <= i < codes.len() && codes[i] == k;
        lemma_code_bound(ss[i]);
    }
    vstd::set_lib::lemma_int_range(0, bound);
    vstd::set_lib::lemma_len_subset(codes.to_set(), vstd::set_lib::set_int_range(0, bound));
}

} // verus!
