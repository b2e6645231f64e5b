use bio::io::fastq;
use ripkmer::{hash_kmer, try_hash_kmer, intersect_counters, intersect_keys, kmerize, Config, KmerIndex, Kstats, Record};

fn from_fastq(r: &fastq::Record) -> Record {
    Record {
        id: r.id().to_string(),
        desc: r.desc().map(String::from),
        seq: String::from_utf8(r.seq().to_vec()).unwrap(),
        qual: String::from_utf8(r.qual().to_vec()).unwrap(),
    }
}

fn parse(fq: &'static [u8]) -> Vec<Record> {
    fastq::Reader::new(fq)
        .records()
        .map(|record| from_fastq(&record.unwrap()))
        .collect()
}

fn record(id: &str, seq: &str, qual: &str) -> Record {
    Record {
        id: id.to_string(),
        desc: None,
        seq: seq.to_string(),
        qual: qual.to_string(),
    }
}

fn assert_index(index: &KmerIndex, expected: &[(&str, u32)]) {
    assert_eq!(index.len(), expected.len());
    for (key, count) in expected {
        assert_eq!(index.get(key.as_bytes()), Some(*count), "count of {}", key);
    }
}

#[test]
fn one_result() {
    let fq: &'static [u8] = b"@id description\nAATTAAGGAACC\n+\n!!!!!!!!!!!!\n";
    let mut all_kmers = KmerIndex::new();
    for record in parse(fq) {
        kmerize(&record, &mut all_kmers, 4, &String::from("AA"))
    }
    assert_index(&all_kmers, &[("AATT", 1), ("AAGG", 1), ("AACC", 1)]);
}

#[test]
fn no_prefix() {
    let fq: &'static [u8] = b"@id description\nAATTA\n+\n!!!!!\n";
    let mut all_kmers = KmerIndex::new();
    for record in parse(fq) {
        kmerize(&record, &mut all_kmers, 4, &String::from(""))
    }
    assert_index(&all_kmers, &[("AATT", 1), ("ATTA", 1)]);
}

#[test]
fn n_less_than_k() {
    let fq: &'static [u8] = b"@id description\nAATTA\n+\n!!!!!\n";
    let mut all_kmers = KmerIndex::new();
    for record in parse(fq) {
        kmerize(&record, &mut all_kmers, 12, &String::from(""))
    }
    assert_index(&all_kmers, &[]);
}

#[test]
fn kmer_stats() {
    let fq: &'static [u8] = b"@id description\nAATTAAGGAACC\n+\n!!!!!!!!!!!!\n";
    let mut all_kmers = KmerIndex::new();
    for record in parse(fq) {
        kmerize(&record, &mut all_kmers, 2, &String::from(""))
    }
    let calculated_kstats = Kstats::new(&all_kmers);
    assert_eq!((9, 11), (calculated_kstats.kunique, calculated_kstats.kredundant));
}

#[test]
fn counter_comp() {
    let mut counter1 = KmerIndex::new();
    counter1.add(b"a", 23);
    counter1.add(b"b", 2);
    counter1.add(b"c", 15);
    let mut counter2 = KmerIndex::new();
    counter2.add(b"a", 5);
    counter2.add(b"b", 7);
    counter2.add(b"c", 3);
    assert_eq!(3, intersect_keys(&counter1, &counter2));
    assert_eq!(10, intersect_counters(&counter1, &counter2));
}

#[test]
fn overlapping_windows_are_counted_each_time() {
    let mut all_kmers = KmerIndex::new();
    kmerize(&record("r", "AAAAAA", "IIIIII"), &mut all_kmers, 2, &String::new());
    assert_index(&all_kmers, &[("AA", 5)]);

    let mut repeats = KmerIndex::new();
    kmerize(&record("r", "ATGATGATG", "IIIIIIIII"), &mut repeats, 3, &String::new());
    assert_index(&repeats, &[("ATG", 3), ("TGA", 2), ("GAT", 2)]);
}

#[test]
fn prefix_longer_than_k_matches_nothing() {
    let mut all_kmers = KmerIndex::new();
    kmerize(&record("r", "AATTAA", "IIIIII"), &mut all_kmers, 2, &String::from("AAT"));
    assert_index(&all_kmers, &[]);
}

#[test]
fn kmers_start_with_prefix_and_have_length_k() {
    let mut all_kmers = KmerIndex::new();
    kmerize(&record("r", "GATTACAGATTACA", "IIIIIIIIIIIIII"), &mut all_kmers, 5, &String::from("GA"));
    assert_index(&all_kmers, &[("GATTA", 2)]);
    assert_eq!(Kstats::new(&all_kmers).kredundant, 2);
}

#[test]
fn empty_prefix_counts_every_window() {
    let mut all_kmers = KmerIndex::new();
    kmerize(&record("r", "ACGTAC", "IIIIII"), &mut all_kmers, 3, &String::new());
    let stats = Kstats::new(&all_kmers);
    assert_eq!(stats.kredundant, 4);
    assert_index(&all_kmers, &[("ACG", 1), ("CGT", 1), ("GTA", 1), ("TAC", 1)]);
}

#[test]
fn record_exactly_k_long_gives_one_kmer() {
    let mut all_kmers = KmerIndex::new();
    kmerize(&record("r", "ACGT", "IIII"), &mut all_kmers, 4, &String::new());
    assert_index(&all_kmers, &[("ACGT", 1)]);
}

#[test]
fn kmerize_accumulates_into_existing_index() {
    let mut all_kmers = KmerIndex::new();
    kmerize(&record("a", "AATT", "IIII"), &mut all_kmers, 2, &String::new());
    kmerize(&record("b", "AAGG", "IIII"), &mut all_kmers, 2, &String::new());
    assert_index(&all_kmers, &[("AA", 2), ("AT", 1), ("TT", 1), ("AG", 1), ("GG", 1)]);
}

#[test]
fn unique_never_exceeds_redundant() {
    let mut distinct = KmerIndex::new();
    kmerize(&record("r", "ACGT", "IIII"), &mut distinct, 2, &String::new());
    let s = Kstats::new(&distinct);
    assert_eq!((s.kunique, s.kredundant), (3, 3));

    let mut repeated = KmerIndex::new();
    kmerize(&record("r", "ACAC", "IIII"), &mut repeated, 2, &String::new());
    let s = Kstats::new(&repeated);
    assert_eq!((s.kunique, s.kredundant), (2, 3));
}

#[test]
fn empty_index_stats() {
    let s = Kstats::new(&KmerIndex::new());
    assert_eq!((s.kunique, s.kredundant), (0, 0));
}

#[test]
fn intersections_are_symmetric_and_bounded() {
    let mut a = KmerIndex::new();
    a.add(b"AC", 4);
    a.add(b"GT", 1);
    a.add(b"TT", 9);
    let mut b = KmerIndex::new();
    b.add(b"AC", 2);
    b.add(b"TT", 3);
    b.add(b"CC", 6);
    assert_eq!(intersect_keys(&a, &b), 2);
    assert_eq!(intersect_keys(&b, &a), 2);
    assert_eq!(intersect_counters(&a, &b), 5);
    assert_eq!(intersect_counters(&b, &a), 5);
    assert!(intersect_counters(&a, &b) <= Kstats::new(&a).kredundant);
    assert!(intersect_counters(&a, &b) <= Kstats::new(&b).kredundant);
}

#[test]
fn intersection_with_empty_index_is_zero() {
    let mut a = KmerIndex::new();
    a.add(b"AC", 4);
    let e = KmerIndex::new();
    assert_eq!(intersect_keys(&a, &e), 0);
    assert_eq!(intersect_counters(&a, &e), 0);
    assert_eq!(intersect_keys(&e, &a), 0);
    assert_eq!(intersect_counters(&e, &a), 0);
}

#[test]
fn add_and_increment_raise_counts() {
    let mut a = KmerIndex::new();
    a.add(b"AC", 4);
    a.add(b"AC", 3);
    a.increment(b"AC");
    a.increment(b"GG");
    a.add(b"TT", 0);
    assert_eq!(a.get(b"AC"), Some(8));
    assert_eq!(a.get(b"GG"), Some(1));
    assert_eq!(a.get(b"TT"), None);
    assert_eq!(a.len(), 2);
}

#[test]
fn hash_kmer_skips_malformed_records() {
    let records = vec![
        record("ok", "AATTA", "IIIII"),
        record("", "AATTA", "IIIII"),
        record("short_qual", "AATTA", "III"),
        record("bad_symbol", "AAT1A", "IIIII"),
        record("ok2", "AATT", "IIII  "),
    ];
    let index = hash_kmer(&records, 4, &String::new());
    assert_index(&index, &[("AATT", 2), ("ATTA", 1)]);
}

fn counted(r: Record) -> bool {
    let index = hash_kmer(&vec![r], 1, &String::new());
    index.len() > 0
}

#[test]
fn records_are_checked_by_fastq_rules() {
    assert!(counted(record("id", "ACGT-.*n", "IIIIIIII")));
    assert!(counted(record("id", "ACGT", "IIII \t")));
    assert!(!counted(record("", "ACGT", "IIII")));
    assert!(!counted(record("id", "AC GT", "IIIII")));
    assert!(!counted(record("id", "ACGT", "III")));
    assert!(!counted(record("id", "ACGT", "IIIé")));
}

#[test]
fn hash_kmer_over_parsed_file() {
    let fq: &'static [u8] =
        b"@a\nAATTAAGGAACC\n+\n!!!!!!!!!!!!\n@b\nAATTA\n+\n!!!!!\n";
    let index = hash_kmer(&parse(fq), 4, &String::from("AA"));
    assert_index(&index, &[("AATT", 2), ("AAGG", 1), ("AACC", 1)]);
}

fn args(list: &[&str]) -> Vec<String> {
    list.iter().map(|s| s.to_string()).collect()
}

#[test]
fn config_defaults() {
    let c = Config::new(args(&["kmer", "a.fq", "b.fq"])).unwrap();
    assert_eq!(c.filename, "a.fq");
    assert_eq!(c.filedb, "b.fq");
    assert_eq!(c.k, 16);
    assert_eq!(c.prefix, "ATCG");
}

#[test]
fn config_reads_k_and_prefix() {
    let c = Config::new(args(&["kmer", "a.fq", "b.fq", "12", "GG"])).unwrap();
    assert_eq!(c.k, 12);
    assert_eq!(c.prefix, "GG");
}

#[test]
fn config_missing_file_names() {
    assert_eq!(Config::new(args(&["kmer", "a.fq"])).err(), Some("Didn't get a filename!"));
    assert_eq!(Config::new(args(&[])).err(), Some("Didn't get a filename!"));
}

#[test]
fn config_rejects_bad_k() {
    assert_eq!(
        Config::new(args(&["kmer", "a.fq", "b.fq", "x"])).err(),
        Some("k must be a positive integer")
    );
    assert_eq!(
        Config::new(args(&["kmer", "a.fq", "b.fq", "0"])).err(),
        Some("k must be a positive integer")
    );
}

#[test]
fn try_hash_kmer_counts_when_counts_fit() {
    let records = vec![record("a", "AATTA", "IIIII"), record("b", "AAT", "III")];
    let index = try_hash_kmer(&records, 4, &String::new()).unwrap();
    assert_index(&index, &[("AATT", 1), ("ATTA", 1)]);
}

#[test]
fn try_hash_kmer_on_no_records() {
    let index = try_hash_kmer(&Vec::new(), 4, &String::new()).unwrap();
    assert_index(&index, &[]);
}
