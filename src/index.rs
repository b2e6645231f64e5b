use vstd::prelude::*;
use vstd::multiset::Multiset;
use vstd::slice::slice_to_vec;

verus! {

broadcast use {
    vstd::multiset::group_multiset_axioms,
    vstd::multiset::lemma_intersection_count,
    vstd::set::group_set_axioms,
};

/// The multiset holding `c` copies of `x`.
pub open spec fn copies(x: Seq<u8>, c: nat) -> Multiset<Seq<u8>>
    decreases c,
{
    if c == 0 {
        Multiset::empty()
    } else {
        copies(x, (c - 1) as nat).insert(x)
    }
}

/// The multiset described by parallel sequences of keys and counts.
pub open spec fn tally(keys: Seq<Vec<u8>>, counts: Seq<u32>) -> Multiset<Seq<u8>>
    decreases keys.len(),
{
    if keys.len() == 0 || counts.len() == 0 {
        Multiset::empty()
    } else {
        tally(keys.drop_last(), counts.drop_last()).add(copies(keys.last()@, counts.last() as nat))
    }
}

/// No key is stored twice.
pub open spec fn distinct_keys(keys: Seq<Vec<u8>>) -> bool {
    forall|i: int, j: int| 0 <= i < keys.len() && 0 <= j < keys.len() && i != j ==> keys[i]@ != keys[j]@
}

proof fn lemma_copies(x: Seq<u8>, c: nat)
    ensures
        copies(x, c).count(x) == c,
        forall|y: Seq<u8>| y != x ==> #[trigger] copies(x, c).count(y) == 0,
        copies(x, c).len() == c,
    decreases c,
{
    if c > 0 {
        lemma_copies(x, (c - 1) as nat);
    }
}

proof fn lemma_tally_absent(keys: Seq<Vec<u8>>, counts: Seq<u32>, y: Seq<u8>)
    requires
        forall|i: int| 0 <= i < keys.len() ==> keys[i]@ != y,
    ensures
        tally(keys, counts).count(y) == 0,
    decreases keys.len(),
{
    if keys.len() > 0 && counts.len() > 0 {
        lemma_tally_absent(keys.drop_last(), counts.drop_last(), y);
        lemma_copies(keys.last()@, counts.last() as nat);
    }
}

proof fn lemma_tally_at(keys: Seq<Vec<u8>>, counts: Seq<u32>, j: int)
    requires
        keys.len() == counts.len(),
        distinct_keys(keys),
        0 <= j < keys.len(),
    ensures
        tally(keys, counts).count(keys[j]@) == counts[j],
    decreases keys.len(),
{
    let n = keys.len() - 1;
    lemma_copies(keys.last()@, counts.last() as nat);
    if j == n {
        lemma_tally_absent(keys.drop_last(), counts.drop_last(), keys[j]@);
    } else {
        lemma_tally_at(keys.drop_last(), counts.drop_last(), j);
    }
}

proof fn lemma_tally_grow(keys: Seq<Vec<u8>>, counts: Seq<u32>, j: int, c: nat)
    requires
        keys.len() == counts.len(),
        0 <= j < keys.len(),
        counts[j] + c <= u32::MAX,
    ensures
        tally(keys, counts.update(j, (counts[j] + c) as u32)) =~= tally(keys, counts).add(
            copies(keys[j]@, c),
        ),
    decreases keys.len(),
{
    let n = keys.len() - 1;
    let counts2 = counts.update(j, (counts[j] + c) as u32);
    lemma_copies(keys.last()@, counts.last() as nat);
    lemma_copies(keys.last()@, counts2.last() as nat);
    lemma_copies(keys[j]@, c);
    if j == n {
        assert(counts2.drop_last() =~= counts.drop_last());
    } else {
        assert(counts2.drop_last() =~= counts.drop_last().update(j, (counts[j] + c) as u32));
        lemma_tally_grow(keys.drop_last(), counts.drop_last(), j, c);
    }
}

proof fn lemma_tally_push(keys: Seq<Vec<u8>>, counts: Seq<u32>, k: Vec<u8>, c: u32)
    requires
        keys.len() == counts.len(),
    ensures
        tally(keys.push(k), counts.push(c)) =~= tally(keys, counts).add(copies(k@, c as nat)),
{
    assert(keys.push(k).drop_last() =~= keys);
    assert(counts.push(c).drop_last() =~= counts);
}

/// The tally of the first `i + 1` entries adds the entry at `i` to that of the first `i`.
proof fn lemma_tally_prefix(keys: Seq<Vec<u8>>, counts: Seq<u32>, i: int)
    requires
        keys.len() == counts.len(),
        0 <= i < keys.len(),
    ensures
        tally(keys.subrange(0, i + 1), counts.subrange(0, i + 1)) =~= tally(
            keys.subrange(0, i),
            counts.subrange(0, i),
        ).add(copies(keys[i]@, counts[i] as nat)),
{
    assert(keys.subrange(0, i + 1).drop_last() =~= keys.subrange(0, i));
    assert(counts.subrange(0, i + 1).drop_last() =~= counts.subrange(0, i));
}

/// With distinct keys and positive counts, the keys are the distinct elements of the tally.
proof fn lemma_tally_dom(keys: Seq<Vec<u8>>, counts: Seq<u32>)
    requires
        keys.len() == counts.len(),
        distinct_keys(keys),
        forall|i: int| 0 <= i < counts.len() ==> counts[i] >= 1,
    ensures
        tally(keys, counts).dom().len() == keys.len(),
        tally(keys, counts).dom() =~= Set::new(
            |y: Seq<u8>| exists|i: int| 0 <= i < keys.len() && keys[i]@ == y,
        ),
    decreases keys.len(),
{
    if keys.len() > 0 {
        let ks = keys.drop_last();
        let cs = counts.drop_last();
        lemma_tally_dom(ks, cs);
        let k = keys.last()@;
        lemma_copies(k, counts.last() as nat);
        lemma_tally_absent(ks, cs, k);
        let t = tally(ks, cs);
        assert(tally(keys, counts).dom() =~= t.dom().insert(k));
        assert(!t.dom().contains(k));
        assert forall|y: Seq<u8>| #[trigger]
            tally(keys, counts).dom().contains(y) implies exists|i: int|
                0 <= i < keys.len() && keys[i]@ == y by {
            if y != k {
                let i = choose|i: int| 0 <= i < ks.len() && ks[i]@ == y;
                assert(keys[i]@ == y);
            } else {
                assert(keys[keys.len() - 1]@ == y);
            }
        }
        assert forall|y: Seq<u8>|
            (exists|i: int| 0 <= i < keys.len() && keys[i]@ == y) implies #[trigger] tally(
                keys,
                counts,
            ).dom().contains(y) by {
            let i = choose|i: int| 0 <= i < keys.len() && keys[i]@ == y;
            if i < keys.len() - 1 {
                assert(ks[i]@ == y);
            }
        }
    } else {
        assert(tally(keys, counts).dom() =~= Set::empty());
    }
}

/// The tally of a shorter run of entries holds no more occurrences.
proof fn lemma_tally_prefix_le(keys: Seq<Vec<u8>>, counts: Seq<u32>, i: int, j: int)
    requires
        keys.len() == counts.len(),
        0 <= i <= j <= keys.len(),
    ensures
        tally(keys.subrange(0, i), counts.subrange(0, i)).len() <= tally(
            keys.subrange(0, j),
            counts.subrange(0, j),
        ).len(),
    decreases j - i,
{
    if i < j {
        lemma_tally_prefix_le(keys, counts, i, j - 1);
        lemma_tally_prefix(keys, counts, j - 1);
    }
}

/// With positive counts there are at least as many occurrences as keys, and
/// exactly as many when every count is one.
proof fn lemma_tally_len_ge(keys: Seq<Vec<u8>>, counts: Seq<u32>)
    requires
        keys.len() == counts.len(),
        forall|i: int| 0 <= i < counts.len() ==> counts[i] >= 1,
    ensures
        tally(keys, counts).len() >= keys.len(),
        tally(keys, counts).len() == keys.len() <==> forall|i: int|
            0 <= i < counts.len() ==> counts[i] == 1,
    decreases keys.len(),
{
    if keys.len() > 0 {
        let ks = keys.drop_last();
        let cs = counts.drop_last();
        lemma_tally_len_ge(ks, cs);
        lemma_copies(keys.last()@, counts.last() as nat);
        if tally(keys, counts).len() == keys.len() {
            assert forall|i: int| 0 <= i < counts.len() implies counts[i] == 1 by {
                if i < counts.len() - 1 {
                    assert(cs[i] == counts[i]);
                }
            }
        }
        if forall|i: int| 0 <= i < counts.len() ==> counts[i] == 1 {
            assert forall|i: int| 0 <= i < cs.len() implies cs[i] == 1 by {
                assert(cs[i] == counts[i]);
            }
        }
    }
}

/// A multiset intersection is no larger than either operand.
proof fn lemma_intersection_len(a: Multiset<Seq<u8>>, b: Multiset<Seq<u8>>)
    ensures
        a.intersection_with(b).len() <= a.len(),
        a.intersection_with(b).len() <= b.len(),
{
    let m = a.intersection_with(b);
    assert(a =~= m.add(a.sub(m)));
    assert(b =~= m.add(b.sub(m)));
}

/// A count of k-mers: each distinct k-mer with its number of occurrences.
///
/// Its view is the multiset of all occurrences; `dom()` gives the distinct
/// k-mers and `len()` the total number of occurrences.
pub struct KmerIndex {
    keys: Vec<Vec<u8>>,
    counts: Vec<u32>,
}

impl View for KmerIndex {
    type V = Multiset<Seq<u8>>;

    closed spec fn view(&self) -> Multiset<Seq<u8>> {
        tally(self.keys@, self.counts@)
    }
}

impl KmerIndex {
    /// Keys are distinct, every count is positive, and the total number of
    /// occurrences fits in a `u32`.
    pub closed spec fn wf(&self) -> bool {
        &&& self.keys.len() == self.counts.len()
        &&& distinct_keys(self.keys@)
        &&& forall|i: int| 0 <= i < self.counts.len() ==> self.counts[i] >= 1
        &&& self@.len() <= u32::MAX
    }

    /// An index with no k-mers.
    pub fn new() -> (r: KmerIndex)
        ensures
            r.wf(),
            r@ =~= Multiset::empty(),
    {
        KmerIndex { keys: Vec::new(), counts: Vec::new() }
    }

    fn find(&self, key: &[u8]) -> (r: Option<usize>)
        requires
            self.wf(),
        ensures
            match r {
                Some(j) => j < self.keys.len() && self.keys[j as int]@ == key@,
                None => forall|i: int| 0 <= i < self.keys.len() ==> self.keys[i]@ != key@,
            },
    {
        let mut i: usize = 0;
        while i < self.keys.len()
            invariant
                i <= self.keys.len(),
                forall|t: int| 0 <= t < i ==> self.keys[t]@ != key@,
            decreases self.keys.len() - i,
        {
            if bytes_eq(self.keys[i].as_slice(), key) {
                return Some(i);
            }
            i = i + 1;
        }
        None
    }

    /// The number of occurrences of `key`, or `None` where it never occurred.
    pub fn get(&self, key: &[u8]) -> (r: Option<u32>)
        requires
            self.wf(),
        ensures
            match r {
                Some(c) => c >= 1 && self@.count(key@) == c,
                None => self@.count(key@) == 0,
            },
    {
        match self.find(key) {
            Some(j) => {
                proof {
                    lemma_tally_at(self.keys@, self.counts@, j as int);
                }
                Some(self.counts[j])
            },
            None => {
                proof {
                    lemma_tally_absent(self.keys@, self.counts@, key@);
                }
                None
            },
        }
    }

    /// The number of distinct k-mers.
    pub fn len(&self) -> (r: usize)
        requires
            self.wf(),
        ensures
            r == self@.dom().len(),
    {
        proof {
            lemma_tally_dom(self.keys@, self.counts@);
        }
        self.keys.len()
    }

    /// Adds `count` occurrences of `key`: the key is inserted with that count
    /// if it is new, and its count is raised by it otherwise.
    pub fn add(&mut self, key: &[u8], count: u32)
        requires
            old(self).wf(),
            old(self)@.len() + count <= u32::MAX,
        ensures
            final(self).wf(),
            final(self)@ =~= old(self)@.add(copies(key@, count as nat)),
            final(self)@.len() == old(self)@.len() + count,
            final(self)@.count(key@) == old(self)@.count(key@) + count,
            forall|y: Seq<u8>| y != key@ ==> #[trigger] final(self)@.count(y) == old(self)@.count(y),
    {
        proof {
            lemma_copies(key@, count as nat);
        }
        if count == 0 {
            return;
        }
        match self.find(key) {
            Some(j) => {
                proof {
                    lemma_tally_at(self.keys@, self.counts@, j as int);
                    lemma_tally_grow(self.keys@, self.counts@, j as int, count as nat);
                }
                let c = self.counts[j];
                self.counts.set(j, c + count);
            },
            None => {
                let k = slice_to_vec(key);
                proof {
                    lemma_tally_push(self.keys@, self.counts@, k, count);
                }
                self.keys.push(k);
                self.counts.push(count);
            },
        }
    }

    /// Counts one more occurrence of `key`.
    pub fn increment(&mut self, key: &[u8])
        requires
            old(self).wf(),
            old(self)@.len() < u32::MAX,
        ensures
            final(self).wf(),
            final(self)@ =~= old(self)@.insert(key@),
    {
        proof {
            lemma_copies(key@, 1);
        }
        self.add(key, 1);
    }
}

/// Summary of a k-mer index: distinct k-mers and total occurrences.
pub struct Kstats {
    pub kunique: usize,
    pub kredundant: u32,
}

impl Kstats {
    /// The number of distinct k-mers of `kmers` and the sum of their counts.
    pub fn new(kmers: &KmerIndex) -> (r: Kstats)
        requires
            kmers.wf(),
        ensures
            r.kunique == kmers@.dom().len(),
            r.kredundant == kmers@.len(),
    {
        let ghost keys = kmers.keys@;
        let ghost counts = kmers.counts@;
        let mut kunique: usize = 0;
        let mut kredundant: u32 = 0;
        let mut i: usize = 0;
        while i < kmers.keys.len()
            invariant
                kmers.wf(),
                keys == kmers.keys@,
                counts == kmers.counts@,
                i <= keys.len(),
                kunique == i,
                kredundant == tally(keys.subrange(0, i as int), counts.subrange(0, i as int)).len(),
            decreases keys.len() - i,
        {
            proof {
                lemma_tally_prefix(keys, counts, i as int);
                lemma_copies(keys[i as int]@, counts[i as int] as nat);
                lemma_tally_prefix_le(keys, counts, i as int + 1, keys.len() as int);
                assert(keys.subrange(0, keys.len() as int) =~= keys);
                assert(counts.subrange(0, counts.len() as int) =~= counts);
            }
            kunique = kunique + 1;
            kredundant = kredundant + kmers.counts[i];
            i = i + 1;
        }
        proof {
            assert(keys.subrange(0, keys.len() as int) =~= keys);
            assert(counts.subrange(0, counts.len() as int) =~= counts);
            lemma_tally_dom(keys, counts);
        }
        Kstats { kunique, kredundant }
    }
}

/// The number of k-mers present in both indexes.
pub fn intersect_keys(left: &KmerIndex, right: &KmerIndex) -> (r: usize)
    requires
        left.wf(),
        right.wf(),
    ensures
        r == left@.dom().intersect(right@.dom()).len(),
{
    let ghost keys = left.keys@;
    let ghost counts = left.counts@;
    let ghost d = right@.dom();
    let mut r: usize = 0;
    let mut i: usize = 0;
    proof {
        assert(tally(keys.subrange(0, 0), counts.subrange(0, 0)).dom().intersect(d) =~= Set::empty());
    }
    while i < left.keys.len()
        invariant
            left.wf(),
            right.wf(),
            keys == left.keys@,
            counts == left.counts@,
            d == right@.dom(),
            i <= keys.len(),
            r <= i,
            r == tally(keys.subrange(0, i as int), counts.subrange(0, i as int)).dom().intersect(
                d,
            ).len(),
        decreases keys.len() - i,
    {
        let ghost ks = keys.subrange(0, i as int);
        let ghost cs = counts.subrange(0, i as int);
        let ghost k = keys[i as int]@;
        let ghost s = tally(ks, cs).dom();
        proof {
            lemma_tally_prefix(keys, counts, i as int);
            lemma_copies(k, counts[i as int] as nat);
            lemma_tally_absent(ks, cs, k);
            assert(tally(keys.subrange(0, i + 1), counts.subrange(0, i + 1)).dom() =~= s.insert(k));
        }
        let found = right.get(left.keys[i].as_slice());
        if found.is_some() {
            proof {
                assert(s.insert(k).intersect(d) =~= s.intersect(d).insert(k));
            }
            r = r + 1;
        } else {
            proof {
                assert(s.insert(k).intersect(d) =~= s.intersect(d));
            }
        }
        i = i + 1;
    }
    proof {
        assert(keys.subrange(0, keys.len() as int) =~= keys);
        assert(counts.subrange(0, counts.len() as int) =~= counts);
    }
    r
}

/// The size of the multiset intersection of two indexes: over the k-mers
/// present in both, the sum of the smaller of their two counts.
pub fn intersect_counters(left: &KmerIndex, right: &KmerIndex) -> (r: u32)
    requires
        left.wf(),
        right.wf(),
    ensures
        r == left@.intersection_with(right@).len(),
{
    let ghost keys = left.keys@;
    let ghost counts = left.counts@;
    let ghost b = right@;
    let mut r: u32 = 0;
    let mut i: usize = 0;
    proof {
        let e = tally(keys.subrange(0, 0), counts.subrange(0, 0));
        assert(e.intersection_with(b) =~= Multiset::empty());
    }
    while i < left.keys.len()
        invariant
            left.wf(),
            right.wf(),
            keys == left.keys@,
            counts == left.counts@,
            b == right@,
            i <= keys.len(),
            r == tally(keys.subrange(0, i as int), counts.subrange(0, i as int)).intersection_with(
                b,
            ).len(),
        decreases keys.len() - i,
    {
        let ghost ks = keys.subrange(0, i as int);
        let ghost cs = counts.subrange(0, i as int);
        let ghost k = keys[i as int]@;
        let ghost t = tally(ks, cs);
        let ghost t2 = tally(keys.subrange(0, i + 1), counts.subrange(0, i + 1));
        proof {
            lemma_tally_prefix(keys, counts, i as int);
            lemma_copies(k, counts[i as int] as nat);
            lemma_tally_absent(ks, cs, k);
            lemma_tally_prefix_le(keys, counts, i as int + 1, keys.len() as int);
            assert(keys.subrange(0, keys.len() as int) =~= keys);
            assert(counts.subrange(0, counts.len() as int) =~= counts);
            lemma_intersection_len(t2, b);
        }
        let c = left.counts[i];
        let m: u32 = match right.get(left.keys[i].as_slice()) {
            Some(rc) => if rc < c { rc } else { c },
            None => 0,
        };
        proof {
            lemma_copies(k, m as nat);
            assert(t2.intersection_with(b) =~= t.intersection_with(b).add(copies(k, m as nat)));
        }
        r = r + m;
        i = i + 1;
    }
    proof {
        assert(keys.subrange(0, keys.len() as int) =~= keys);
        assert(counts.subrange(0, counts.len() as int) =~= counts);
    }
    r
}

/// The distinct k-mers of an index never outnumber its occurrences, and the
/// two numbers agree exactly when no k-mer occurs more than once.
pub proof fn unique_le_redundant(idx: &KmerIndex)
    requires
        idx.wf(),
    ensures
        idx@.dom().len() <= idx@.len(),
        idx@.dom().len() == idx@.len() <==> forall|x: Seq<u8>| #[trigger] idx@.count(x) <= 1,
{
    let keys = idx.keys@;
    let counts = idx.counts@;
    lemma_tally_dom(keys, counts);
    lemma_tally_len_ge(keys, counts);
    if forall|x: Seq<u8>| #[trigger] idx@.count(x) <= 1 {
        assert forall|i: int| 0 <= i < counts.len() implies counts[i] == 1 by {
            lemma_tally_at(keys, counts, i);
            assert(idx@.count(keys[i]@) <= 1);
        }
    }
    if forall|i: int| 0 <= i < counts.len() ==> counts[i] == 1 {
        assert forall|x: Seq<u8>| #[trigger] idx@.count(x) <= 1 by {
            if exists|i: int| 0 <= i < keys.len() && keys[i]@ == x {
                let i = choose|i: int| 0 <= i < keys.len() && keys[i]@ == x;
                lemma_tally_at(keys, counts, i);
            } else {
                lemma_tally_absent(keys, counts, x);
            }
        }
    }
}

/// Both intersection measures are symmetric in their two indexes.
pub proof fn intersection_symmetric(a: &KmerIndex, b: &KmerIndex)
    ensures
        a@.dom().intersect(b@.dom()).len() == b@.dom().intersect(a@.dom()).len(),
        a@.intersection_with(b@).len() == b@.intersection_with(a@).len(),
{
    assert(a@.dom().intersect(b@.dom()) =~= b@.dom().intersect(a@.dom()));
    assert(a@.intersection_with(b@) =~= b@.intersection_with(a@));
}

/// The multiset intersection of two indexes holds no more occurrences than
/// either index.
pub proof fn intersection_bounded(a: &KmerIndex, b: &KmerIndex)
    ensures
        a@.intersection_with(b@).len() <= a@.len(),
        a@.intersection_with(b@).len() <= b@.len(),
{
    lemma_intersection_len(a@, b@);
}

/// Byte-wise equality of two slices.
fn bytes_eq(a: &[u8], b: &[u8]) -> (r: bool)
    ensures
        r == (a@ == b@),
{
    if a.len() != b.len() {
        return false;
    }
    let mut i: usize = 0;
    while i < a.len()
        invariant
            a.len() == b.len(),
            i <= a.len(),
            forall|t: int| 0 <= t < i ==> a@[t] == b@[t],
        decreases a.len() - i,
    {
        if a[i] != b[i] {
            return false;
        }
        i = i + 1;
    }
    assert(a@ =~= b@);
    true
}

} // verus!
