use crate::index::KmerIndex;
use crate::record::Record;
use vstd::multiset::Multiset;
use vstd::prelude::*;
use vstd::slice::slice_subrange;
use vstd::utf8::encode_utf8;

verus! {

broadcast use {vstd::multiset::group_multiset_axioms, vstd::set::group_set_axioms};

/// `w` begins with `p`.
pub open spec fn starts_with(w: Seq<u8>, p: Seq<u8>) -> bool {
    p.len() <= w.len() && w.subrange(0, p.len() as int) == p
}

/// The windows of length `k` of `s` that start before `j` and begin with `p`.
pub open spec fn windows_before(s: Seq<u8>, k: nat, p: Seq<u8>, j: nat) -> Multiset<Seq<u8>>
    decreases j,
{
    if j == 0 {
        Multiset::empty()
    } else {
        let w = s.subrange(j - 1, j - 1 + k);
        let m = windows_before(s, k, p, (j - 1) as nat);
        if starts_with(w, p) {
            m.insert(w)
        } else {
            m
        }
    }
}

/// Every window of length `k` of `s` that begins with `p`, as often as it
/// occurs.
pub open spec fn kmers_of(s: Seq<u8>, k: nat, p: Seq<u8>) -> Multiset<Seq<u8>> {
    if s.len() < k {
        Multiset::empty()
    } else {
        windows_before(s, k, p, (s.len() - k + 1) as nat)
    }
}

/// The k-mers of the well-formed records of `recs`.
pub open spec fn records_kmers(recs: Seq<Record>, k: nat, p: Seq<u8>) -> Multiset<Seq<u8>>
    decreases recs.len(),
{
    if recs.len() == 0 {
        Multiset::empty()
    } else {
        let r = recs.last();
        let m = records_kmers(recs.drop_last(), k, p);
        if r.well_formed() {
            m.add(kmers_of(r.symbols(), k, p))
        } else {
            m
        }
    }
}

/// The number of windows of length `k` in a sequence of length `n`.
pub open spec fn window_count(n: nat, k: nat) -> nat {
    if n < k {
        0
    } else {
        (n - k + 1) as nat
    }
}

/// The number of windows of length `k` over all records of `recs`.
pub open spec fn windows_total(recs: Seq<Record>, k: nat) -> nat
    decreases recs.len(),
{
    if recs.len() == 0 {
        0
    } else {
        windows_total(recs.drop_last(), k) + window_count(recs.last().symbols().len(), k)
    }
}

/// The start positions before `j` of the windows of length `k` of `s` equal to `w`.
pub open spec fn positions(s: Seq<u8>, k: nat, w: Seq<u8>, j: int) -> Set<int> {
    Set::new(|i: int| 0 <= i < j && s.subrange(i, i + k) == w)
}

proof fn lemma_windows_len_mono(s: Seq<u8>, k: nat, p: Seq<u8>, i: nat, j: nat)
    requires
        i <= j,
    ensures
        windows_before(s, k, p, i).len() <= windows_before(s, k, p, j).len(),
    decreases j - i,
{
    if i < j {
        lemma_windows_len_mono(s, k, p, i, (j - 1) as nat);
    }
}

proof fn lemma_windows_shape(s: Seq<u8>, k: nat, p: Seq<u8>, j: nat, w: Seq<u8>)
    requires
        j + k <= s.len() + 1,
        windows_before(s, k, p, j).count(w) > 0,
    ensures
        w.len() == k,
        starts_with(w, p),
    decreases j,
{
    if j > 0 {
        let v = s.subrange(j - 1, j - 1 + k);
        if !(starts_with(v, p) && v == w) {
            lemma_windows_shape(s, k, p, (j - 1) as nat, w);
        }
    }
}

proof fn lemma_windows_count(s: Seq<u8>, k: nat, p: Seq<u8>, j: nat, w: Seq<u8>)
    requires
        starts_with(w, p),
    ensures
        positions(s, k, w, j as int).finite(),
        windows_before(s, k, p, j).count(w) == positions(s, k, w, j as int).len(),
    decreases j,
{
    if j == 0 {
        assert(positions(s, k, w, 0) =~= Set::empty());
    } else {
        lemma_windows_count(s, k, p, (j - 1) as nat, w);
        let v = s.subrange(j - 1, j - 1 + k);
        let before = positions(s, k, w, j - 1);
        if v == w {
            assert(positions(s, k, w, j as int) =~= before.insert(j - 1));
        } else {
            assert(positions(s, k, w, j as int) =~= before);
        }
    }
}

proof fn lemma_windows_all(s: Seq<u8>, k: nat, p: Seq<u8>, j: nat)
    requires
        p.len() == 0,
    ensures
        windows_before(s, k, p, j).len() == j,
        forall|i: int| 0 <= i < j ==> #[trigger] windows_before(s, k, p, j).count(s.subrange(i, i + k)) > 0,
    decreases j,
{
    if j > 0 {
        lemma_windows_all(s, k, p, (j - 1) as nat);
        let w = s.subrange(j - 1, j - 1 + k);
        assert(w.subrange(0, 0) =~= p);
    }
}

proof fn lemma_records_len_mono(recs: Seq<Record>, k: nat, p: Seq<u8>, i: int, j: int)
    requires
        0 <= i <= j <= recs.len(),
    ensures
        records_kmers(recs.subrange(0, i), k, p).len() <= records_kmers(recs.subrange(0, j), k, p).len(),
    decreases j - i,
{
    if i < j {
        lemma_records_len_mono(recs, k, p, i, j - 1);
        assert(recs.subrange(0, j).drop_last() =~= recs.subrange(0, j - 1));
    }
}

proof fn lemma_windows_len_le(s: Seq<u8>, k: nat, p: Seq<u8>, j: nat)
    ensures
        windows_before(s, k, p, j).len() <= j,
    decreases j,
{
    if j > 0 {
        lemma_windows_len_le(s, k, p, (j - 1) as nat);
    }
}

/// A record yields at most one k-mer per window.
pub proof fn kmers_at_most_windows(s: Seq<u8>, k: nat, p: Seq<u8>)
    ensures
        kmers_of(s, k, p).len() <= window_count(s.len(), k),
{
    if s.len() >= k {
        lemma_windows_len_le(s, k, p, (s.len() - k + 1) as nat);
    }
}

/// The records yield at most one k-mer per window.
pub proof fn records_kmers_at_most_windows(recs: Seq<Record>, k: nat, p: Seq<u8>)
    ensures
        records_kmers(recs, k, p).len() <= windows_total(recs, k),
    decreases recs.len(),
{
    if recs.len() > 0 {
        records_kmers_at_most_windows(recs.drop_last(), k, p);
        kmers_at_most_windows(recs.last().symbols(), k, p);
    }
}

/// Without a record at least `k` long, no k-mer is found.
pub proof fn short_record_has_no_kmers(s: Seq<u8>, k: nat, p: Seq<u8>)
    requires
        s.len() < k,
    ensures
        kmers_of(s, k, p) =~= Multiset::empty(),
{
}

/// Every k-mer found is exactly `k` long and begins with the prefix.
pub proof fn kmers_have_length_and_prefix(s: Seq<u8>, k: nat, p: Seq<u8>, w: Seq<u8>)
    requires
        kmers_of(s, k, p).count(w) > 0,
    ensures
        w.len() == k,
        starts_with(w, p),
{
    lemma_windows_shape(s, k, p, (s.len() - k + 1) as nat, w);
}

/// A k-mer that begins with the prefix is counted once for every position at
/// which it occurs in the record, overlapping occurrences included.
pub proof fn kmers_counted_at_every_position(s: Seq<u8>, k: nat, p: Seq<u8>, w: Seq<u8>)
    requires
        k <= s.len(),
        starts_with(w, p),
    ensures
        kmers_of(s, k, p).count(w) == Set::new(
            |i: int| 0 <= i <= s.len() - k && s.subrange(i, i + k) == w,
        ).len(),
{
    let j = (s.len() - k + 1) as nat;
    lemma_windows_count(s, k, p, j, w);
    assert(positions(s, k, w, j as int) =~= Set::new(
        |i: int| 0 <= i <= s.len() - k && s.subrange(i, i + k) == w,
    ));
}

/// With an empty prefix every window of length `k` is counted.
pub proof fn empty_prefix_counts_every_window(s: Seq<u8>, k: nat, p: Seq<u8>)
    requires
        p.len() == 0,
        k <= s.len(),
    ensures
        kmers_of(s, k, p).len() == s.len() - k + 1,
        forall|i: int| 0 <= i <= s.len() - k ==> #[trigger] kmers_of(s, k, p).count(s.subrange(i, i + k)) > 0,
{
    lemma_windows_all(s, k, p, (s.len() - k + 1) as nat);
}

/// `w` begins with `p`.
fn has_prefix(w: &[u8], p: &[u8]) -> (r: bool)
    ensures
        r == starts_with(w@, p@),
{
    if p.len() > w.len() {
        return false;
    }
    let mut i: usize = 0;
    while i < p.len()
        invariant
            p.len() <= w.len(),
            i <= p.len(),
            forall|t: int| 0 <= t < i ==> w@[t] == p@[t],
        decreases p.len() - i,
    {
        if w[i] != p[i] {
            assert(w@.subrange(0, p.len() as int)[i as int] != p@[i as int]);
            return false;
        }
        i = i + 1;
    }
    assert(w@.subrange(0, p.len() as int) =~= p@);
    true
}

/// Counts into `all_kmers` every window of length `k` of the record's
/// sequence that begins with `prefix`; a record shorter than `k` adds nothing.
pub fn kmerize(record: &Record, all_kmers: &mut KmerIndex, k: usize, prefix: &String)
    requires
        k > 0,
        old(all_kmers).wf(),
        old(all_kmers)@.len() + kmers_of(record.symbols(), k as nat, encode_utf8(prefix@)).len()
            <= u32::MAX,
    ensures
        final(all_kmers).wf(),
        final(all_kmers)@ =~= old(all_kmers)@.add(
            kmers_of(record.symbols(), k as nat, encode_utf8(prefix@)),
        ),
        record.symbols().len() < k ==> final(all_kmers)@ =~= old(all_kmers)@,
{
    let seq = record.seq.as_str().as_bytes();
    let ghost s = seq@;
    let ghost start = all_kmers@;
    let n = seq.len();
    if n < k {
        return;
    }
    let p = prefix.as_str().as_bytes();
    let ghost total = (n - k + 1) as nat;
    let mut i: usize = 0;
    while i <= n - k
        invariant
            s == seq@,
            s == record.symbols(),
            p@ == encode_utf8(prefix@),
            n == s.len(),
            0 < k <= n,
            total == n - k + 1,
            i <= total,
            all_kmers.wf(),
            all_kmers@ =~= start.add(windows_before(s, k as nat, p@, i as nat)),
            start.len() + windows_before(s, k as nat, p@, total).len() <= u32::MAX,
        decreases total - i,
    {
        let kmer = slice_subrange(seq, i, i + k);
        if has_prefix(kmer, p) {
            proof {
                lemma_windows_len_mono(s, k as nat, p@, (i + 1) as nat, total);
            }
            all_kmers.increment(kmer);
        }
        i = i + 1;
    }
}

/// Counts the k-mers beginning with `prefix` of every well-formed record;
/// records that fail the check are skipped.
pub fn hash_kmer(records: &Vec<Record>, k: usize, prefix: &String) -> (r: KmerIndex)
    requires
        k > 0,
        records_kmers(records@, k as nat, encode_utf8(prefix@)).len() <= u32::MAX,
    ensures
        r.wf(),
        r@ =~= records_kmers(records@, k as nat, encode_utf8(prefix@)),
{
    let ghost p = encode_utf8(prefix@);
    let mut all_kmers = KmerIndex::new();
    let mut i: usize = 0;
    proof {
        assert(records@.subrange(0, 0) =~= Seq::<Record>::empty());
    }
    while i < records.len()
        invariant
            k > 0,
            p == encode_utf8(prefix@),
            i <= records.len(),
            all_kmers.wf(),
            all_kmers@ =~= records_kmers(records@.subrange(0, i as int), k as nat, p),
            records_kmers(records@, k as nat, p).len() <= u32::MAX,
        decreases records.len() - i,
    {
        let record = &records[i];
        proof {
            assert(records@.subrange(0, i + 1).drop_last() =~= records@.subrange(0, i as int));
            assert(records@.subrange(0, records.len() as int) =~= records@);
            lemma_records_len_mono(records@, k as nat, p, i + 1, records.len() as int);
        }
        if record.check() {
            kmerize(record, &mut all_kmers, k, prefix);
        }
        i = i + 1;
    }
    proof {
        assert(records@.subrange(0, records.len() as int) =~= records@);
    }
    all_kmers
}

/// Counts the k-mers as `hash_kmer` does where the records hold at most
/// `u32::MAX` windows of length `k`, so that every count fits; returns
/// `None`, counting nothing, where they hold more.
pub fn try_hash_kmer(records: &Vec<Record>, k: usize, prefix: &String) -> (r: Option<KmerIndex>)
    requires
        k > 0,
    ensures
        r is Some <==> windows_total(records@, k as nat) <= u32::MAX,
        r matches Some(idx) ==> idx.wf() && idx@ =~= records_kmers(
            records@,
            k as nat,
            encode_utf8(prefix@),
        ),
{
    let mut total: u64 = 0;
    let mut i: usize = 0;
    while i < records.len()
        invariant
            k > 0,
            i <= records.len(),
            total == windows_total(records@.subrange(0, i as int), k as nat),
            total <= u32::MAX,
        decreases records.len() - i,
    {
        proof {
            assert(records@.subrange(0, i + 1).drop_last() =~= records@.subrange(0, i as int));
        }
        let n = records[i].seq.as_str().as_bytes().len();
        let w: u64 = if n >= k {
            (n - k) as u64 + 1
        } else {
            0
        };
        assert(w == window_count(records@[i as int].symbols().len(), k as nat));
        if w > u32::MAX as u64 - total {
            proof {
                lemma_windows_total_mono(records@, k as nat, i + 1, records.len() as int);
                assert(records@.subrange(0, records.len() as int) =~= records@);
            }
            return None;
        }
        total = total + w;
        i = i + 1;
    }
    proof {
        assert(records@.subrange(0, records.len() as int) =~= records@);
        records_kmers_at_most_windows(records@, k as nat, encode_utf8(prefix@));
    }
    Some(hash_kmer(records, k, prefix))
}

proof fn lemma_windows_total_mono(recs: Seq<Record>, k: nat, i: int, j: int)
    requires
        0 <= i <= j <= recs.len(),
    ensures
        windows_total(recs.subrange(0, i), k) <= windows_total(recs.subrange(0, j), k),
    decreases j - i,
{
    if i < j {
        lemma_windows_total_mono(recs, k, i, j - 1);
        assert(recs.subrange(0, j).drop_last() =~= recs.subrange(0, j - 1));
    }
}

} // verus!
