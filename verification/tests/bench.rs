use comere::bench::{fmt_thousands_sep, gnuplot, BenchIdentifier, BenchStats};

fn stats(name: &str, threads: usize, samples: Vec<u64>) -> BenchStats {
    BenchStats::new(BenchIdentifier::new("hp".to_string(), name.to_string(), threads), samples)
}

#[test]
fn thousands_are_separated() {
    assert_eq!(fmt_thousands_sep(0), "0");
    assert_eq!(fmt_thousands_sep(999), "999");
    assert_eq!(fmt_thousands_sep(1000), "1,000");
    assert_eq!(fmt_thousands_sep(1234567), "1,234,567");
    assert_eq!(fmt_thousands_sep(1000000000), "1,000,000,000");
    assert_eq!(fmt_thousands_sep(1234000000007), "1234,000,000,007");
}

#[test]
fn identifier_text() {
    let s = stats("queue_push", 4, vec![1]);
    assert_eq!(s.string(), "hp::queue_push::04");
    assert_eq!(s.variant(), "hp");
    assert_eq!(s.name(), "queue_push");
    assert_eq!(s.threads(), 4);
    let t = stats("nop", 16, vec![1]);
    assert_eq!(t.string(), "hp::nop::16");
}

#[test]
fn figures() {
    let s = stats("nop", 2, vec![10, 20, 30, 41]);
    assert_eq!(s.len(), 4);
    assert_eq!(s.average(), 25);
    assert_eq!(s.min(), 10);
    assert_eq!(s.max(), 41);
    assert_eq!(s.above_avg(), 2);
    assert_eq!(s.below_avg(), 2);
    assert_eq!(s.samples(), &vec![10, 20, 30, 41]);
}

#[test]
fn report_and_csv() {
    let s = stats("nop", 2, vec![1000, 2000, 3000]);
    assert_eq!(s.report(816), "2,000 ns/iter (+/- 816) min=1000 max=3000 above=1 below=1");
    assert_eq!(s.csv(816), "2,000;816;1000;3000;1;1");
    assert_eq!(BenchStats::csv_header(), "average;variance;min;max;#above avg;#below avg");
}

#[test]
fn plot_data() {
    let a = stats("a", 1, vec![1, 2, 3]);
    let b = stats("b", 2, vec![7]);
    assert_eq!(gnuplot(&[a, b]), "hp::a::01hp::b::02\n1 7 \n2 0 \n3 0 \n");
    assert_eq!(gnuplot(&[]), "\n");
}

#[test]
fn identifier_from_text() {
    let id = BenchIdentifier::from_str("hp::nop::4").unwrap();
    assert_eq!(id.string(), "hp::nop::04");
    let id = BenchIdentifier::from_str("ebr::queue::push::16").unwrap();
    assert_eq!(id.string(), "ebr::queue_push::16");
    let id = BenchIdentifier::from_str("a::b::+7").unwrap();
    assert_eq!(id.string(), "a::b::07");
    let id = BenchIdentifier::from_str("::::0").unwrap();
    assert_eq!(id.string(), "::::00");
    assert!(BenchIdentifier::from_str("hp::nop").is_err());
    assert!(BenchIdentifier::from_str("hp::nop::").is_err());
    assert!(BenchIdentifier::from_str("hp::nop::x4").is_err());
    assert!(BenchIdentifier::from_str("hp::nop::-4").is_err());
    assert!(BenchIdentifier::from_str("hp::nop::+").is_err());
    assert!(BenchIdentifier::from_str("a::b::c::d::4").is_err());
    assert!(BenchIdentifier::from_str("a::b::99999999999999999999999999").is_err());
    assert!(BenchIdentifier::from_str("").is_err());
    // A colon that is left over belongs to the part behind it.
    let id = BenchIdentifier::from_str("a:::b::1").unwrap();
    assert_eq!(id.string(), "a:::b::01");
}

#[test]
fn threads_are_read_as_std_reads_them() {
    for text in ["0", "7", "+7", "007", "18446744073709551615", "18446744073709551616", "", "+", "1a", " 1", "٣"] {
        assert_eq!(comere::bench::read_threads(text), text.parse::<usize>().ok(), "{:?}", text);
    }
}

#[test]
fn runs_are_sampled() {
    let mut samples = vec![5];
    let mut state = 0u32;
    comere::bench::sample_runs(&mut samples, 3, &mut state, &|s: &mut u32| *s += 1);
    assert_eq!(state, 3);
    assert_eq!(samples.len(), 4);
    assert_eq!(samples[0], 5);
    assert_eq!(comere::bench::elapsed(10, 25), 15);
    assert_eq!(comere::bench::elapsed(25, 10), 0);
    let d = comere::bench::measure(&mut state, &|s: &mut u32| {
        let start = std::time::Instant::now();
        while start.elapsed().as_millis() < 2 {}
        *s += 1
    });
    assert_eq!(state, 4);
    assert!(d >= 1_000_000);
    assert_eq!(comere::bench::output_samples(&vec![1, 20, 300]), "1\n20\n300\n");
}
