//! The figures of a benchmark run: what was measured, the samples in
//! nanoseconds, and the texts that report them.
use vstd::prelude::*;
use vstd::string::StringExecFns;
use vstd::string::StrSliceExecFns;

verus! {

/// The character of the digit `d`.
pub open spec fn digit(d: nat) -> char {
    if d == 0 {
        '0'
    } else if d == 1 {
        '1'
    } else if d == 2 {
        '2'
    } else if d == 3 {
        '3'
    } else if d == 4 {
        '4'
    } else if d == 5 {
        '5'
    } else if d == 6 {
        '6'
    } else if d == 7 {
        '7'
    } else if d == 8 {
        '8'
    } else {
        '9'
    }
}

/// The decimal digits of `n`, without leading zeros.
pub open spec fn decimal(n: nat) -> Seq<char>
    decreases n,
{
    if n < 10 {
        seq![digit(n)]
    } else {
        decimal(n / 10).push(digit(n % 10))
    }
}

/// The decimal digits of `n`, with a leading zero where there is only one.
pub open spec fn decimal2(n: nat) -> Seq<char> {
    if n < 10 {
        seq!['0'] + decimal(n)
    } else {
        decimal(n)
    }
}

/// The three decimal digits of a number below one thousand.
pub open spec fn decimal3(n: nat) -> Seq<char> {
    seq![digit(n / 100), digit((n / 10) % 10), digit(n % 10)]
}

/// The decimal digits of `n` in groups of three, with a comma between the
/// groups. What lies above the billions stands in the first group.
pub open spec fn thousands(n: nat) -> Seq<char> {
    if n < 1000 {
        decimal(n)
    } else if n < 1000000 {
        decimal(n / 1000) + seq![','] + decimal3(n % 1000)
    } else if n < 1000000000 {
        decimal(n / 1000000) + seq![','] + decimal3((n / 1000) % 1000) + seq![','] + decimal3(
            n % 1000,
        )
    } else {
        decimal(n / 1000000000) + seq![','] + decimal3((n / 1000000) % 1000) + seq![',']
            + decimal3((n / 1000) % 1000) + seq![','] + decimal3(n % 1000)
    }
}

/// Appends the digit `d` to `s`.
pub fn push_digit(s: &mut String, d: u64)
    requires
        d < 10,
    ensures
        final(s)@ == old(s)@.push(digit(d as nat)),
{
    proof {
        reveal_strlit("0");
        reveal_strlit("1");
        reveal_strlit("2");
        reveal_strlit("3");
        reveal_strlit("4");
        reveal_strlit("5");
        reveal_strlit("6");
        reveal_strlit("7");
        reveal_strlit("8");
        reveal_strlit("9");
    }
    if d == 0 {
        s.append("0");
    } else if d == 1 {
        s.append("1");
    } else if d == 2 {
        s.append("2");
    } else if d == 3 {
        s.append("3");
    } else if d == 4 {
        s.append("4");
    } else if d == 5 {
        s.append("5");
    } else if d == 6 {
        s.append("6");
    } else if d == 7 {
        s.append("7");
    } else if d == 8 {
        s.append("8");
    } else {
        s.append("9");
    }
    assert(s@ =~= old(s)@.push(digit(d as nat)));
}

/// Appends the decimal digits of `n` to `s`.
pub fn push_decimal(s: &mut String, n: u64)
    ensures
        final(s)@ == old(s)@ + decimal(n as nat),
    decreases n,
{
    if n >= 10 {
        push_decimal(s, n / 10);
    }
    push_digit(s, n % 10);
    assert(s@ =~= old(s)@ + decimal(n as nat));
}

/// Appends the three decimal digits of `n` to `s`.
pub fn push_decimal3(s: &mut String, n: u64)
    requires
        n < 1000,
    ensures
        final(s)@ == old(s)@ + decimal3(n as nat),
{
    push_digit(s, n / 100);
    push_digit(s, (n / 10) % 10);
    push_digit(s, n % 10);
    assert(s@ =~= old(s)@ + decimal3(n as nat));
}

/// The digits of `n` in groups of three, with a comma between the groups.
pub fn fmt_thousands_sep(n: u64) -> (output: String)
    ensures
        output@ == thousands(n as nat),
{
    proof {
        reveal_strlit(",");
    }
    let mut output = String::new();
    if n < 1000 {
        push_decimal(&mut output, n);
        assert(output@ =~= thousands(n as nat));
    } else if n < 1000000 {
        push_decimal(&mut output, n / 1000);
        output.append(",");
        push_decimal3(&mut output, n % 1000);
        assert(output@ =~= thousands(n as nat));
    } else if n < 1000000000 {
        push_decimal(&mut output, n / 1000000);
        output.append(",");
        push_decimal3(&mut output, (n / 1000) % 1000);
        output.append(",");
        push_decimal3(&mut output, n % 1000);
        assert(output@ =~= thousands(n as nat));
    } else {
        push_decimal(&mut output, n / 1000000000);
        output.append(",");
        push_decimal3(&mut output, (n / 1000000) % 1000);
        output.append(",");
        push_decimal3(&mut output, (n / 1000) % 1000);
        output.append(",");
        push_decimal3(&mut output, n % 1000);
        assert(output@ =~= thousands(n as nat));
    }
    output
}

/// What a benchmark run measured: the variant of the library, the name of the
/// benchmark, and the number of threads.
#[derive(Debug, Clone)]
pub struct BenchIdentifier {
    variant: String,
    name: String,
    threads: usize,
}

/// The text `variant::name::threads`, the threads with two digits at least.
pub open spec fn ident_text(variant: Seq<char>, name: Seq<char>, threads: nat) -> Seq<char> {
    variant + seq![':', ':'] + name + seq![':', ':'] + decimal2(threads)
}

impl BenchIdentifier {
    /// The variant of the library.
    pub closed spec fn spec_variant(&self) -> Seq<char> {
        self.variant@
    }

    /// The name of the benchmark.
    pub closed spec fn spec_name(&self) -> Seq<char> {
        self.name@
    }

    /// The number of threads.
    pub closed spec fn spec_threads(&self) -> usize {
        self.threads
    }

    /// The identifier of a run of `name` on `variant` with `threads` threads.
    pub fn new(variant: String, name: String, threads: usize) -> (id: Self)
        ensures
            id.spec_variant() == variant@,
            id.spec_name() == name@,
            id.spec_threads() == threads,
    {
        BenchIdentifier { variant: variant, name: name, threads: threads }
    }

    /// The identifier as one text.
    pub fn string(&self) -> (text: String)
        ensures
            text@ == ident_text(self.spec_variant(), self.spec_name(), self.spec_threads() as nat),
    {
        proof {
            reveal_strlit("::");
            reveal_strlit("0");
        }
        let mut text = String::new();
        text.append(self.variant.as_str());
        text.append("::");
        text.append(self.name.as_str());
        text.append("::");
        if self.threads < 10 {
            text.append("0");
        }
        push_decimal(&mut text, self.threads as u64);
        assert(text@ =~= ident_text(
            self.spec_variant(),
            self.spec_name(),
            self.spec_threads() as nat,
        ));
        text
    }
}

/// The sum of `s`.
pub open spec fn sum(s: Seq<u64>) -> nat
    decreases s.len(),
{
    if s.len() == 0 {
        0
    } else {
        sum(s.drop_last()) + s.last() as nat
    }
}

/// The number of values of `s` that are above `limit`.
pub open spec fn count_above(s: Seq<u64>, limit: u64) -> nat
    decreases s.len(),
{
    if s.len() == 0 {
        0
    } else {
        count_above(s.drop_last(), limit) + if s.last() > limit {
            1nat
        } else {
            0nat
        }
    }
}

/// The number of values of `s` that are below `limit`.
pub open spec fn count_below(s: Seq<u64>, limit: u64) -> nat
    decreases s.len(),
{
    if s.len() == 0 {
        0
    } else {
        count_below(s.drop_last(), limit) + if s.last() < limit {
            1nat
        } else {
            0nat
        }
    }
}

/// The sum of a part of `s` from its start is no more than the sum of `s`,
/// and a count is no more than the length.
pub proof fn lemma_prefix(s: Seq<u64>, i: int, limit: u64)
    requires
        0 <= i <= s.len(),
    ensures
        sum(s.take(i)) <= sum(s),
        count_above(s.take(i), limit) <= i,
        count_below(s.take(i), limit) <= i,
        i < s.len() ==> sum(s.take(i + 1)) == sum(s.take(i)) + s[i],
        i < s.len() ==> count_above(s.take(i + 1), limit) == count_above(s.take(i), limit) + if s[i]
            > limit {
            1nat
        } else {
            0nat
        },
        i < s.len() ==> count_below(s.take(i + 1), limit) == count_below(s.take(i), limit) + if s[i]
            < limit {
            1nat
        } else {
            0nat
        },
    decreases s.len() - i,
{
    if i < s.len() {
        assert(s.take(i + 1).drop_last() =~= s.take(i));
        lemma_prefix(s, i + 1, limit);
    } else {
        assert(s.take(i) =~= s);
    }
    if i > 0 {
        assert(s.take(i).drop_last() =~= s.take(i - 1));
        lemma_counts(s.take(i), limit);
    }
}

/// A count is no more than the length.
pub proof fn lemma_counts(s: Seq<u64>, limit: u64)
    ensures
        count_above(s, limit) <= s.len(),
        count_below(s, limit) <= s.len(),
    decreases s.len(),
{
    if s.len() > 0 {
        lemma_counts(s.drop_last(), limit);
    }
}

/// The samples of one benchmark run, in nanoseconds.
#[derive(Debug, Clone)]
pub struct BenchStats {
    ident: BenchIdentifier,
    samples: Vec<u64>,
}

impl View for BenchStats {
    type V = Seq<u64>;

    /// The samples, in the order in which they were taken.
    closed spec fn view(&self) -> Seq<u64> {
        self.samples@
    }
}

impl BenchStats {
    /// What was measured.
    pub closed spec fn ident(&self) -> BenchIdentifier {
        self.ident
    }

    /// The average of the samples, rounded down.
    pub open spec fn spec_average(&self) -> nat {
        sum(self@) / self@.len()
    }

    /// The statistics of the run `ident` with the samples `samples`.
    pub fn new(ident: BenchIdentifier, samples: Vec<u64>) -> (stats: Self)
        ensures
            stats.ident() == ident,
            stats@ == samples@,
    {
        BenchStats { ident: ident, samples: samples }
    }

    /// The variant of the library.
    pub fn variant(&self) -> (v: &str)
        ensures
            v@ == self.ident().spec_variant(),
    {
        self.ident.variant.as_str()
    }

    /// The name of the benchmark.
    pub fn name(&self) -> (n: &str)
        ensures
            n@ == self.ident().spec_name(),
    {
        self.ident.name.as_str()
    }

    /// The number of threads.
    pub fn threads(&self) -> (t: usize)
        ensures
            t == self.ident().spec_threads(),
    {
        self.ident.threads
    }

    /// What was measured, as one text.
    pub fn string(&self) -> (text: String)
        ensures
            text@ == ident_text(
                self.ident().spec_variant(),
                self.ident().spec_name(),
                self.ident().spec_threads() as nat,
            ),
    {
        self.ident.string()
    }

    /// The number of samples.
    pub fn len(&self) -> (n: u64)
        ensures
            n == self@.len(),
    {
        self.samples.len() as u64
    }

    /// The samples.
    pub fn samples(&self) -> (s: &Vec<u64>)
        ensures
            s@ == self@,
    {
        &self.samples
    }

    /// The average of the samples, rounded down.
    pub fn average(&self) -> (avg: u64)
        requires
            self@.len() > 0,
            sum(self@) <= u64::MAX,
        ensures
            avg == self.spec_average(),
    {
        let mut total: u64 = 0;
        let mut i: usize = 0;
        while i < self.samples.len()
            invariant
                i <= self@.len(),
                total == sum(self@.take(i as int)),
                sum(self@) <= u64::MAX,
            decreases self@.len() - i,
        {
            proof {
                lemma_prefix(self@, i as int, 0);
                lemma_prefix(self@, i + 1, 0);
            }
            total = total + self.samples[i];
            i += 1;
        }
        proof {
            assert(self@.take(i as int) =~= self@);
        }
        total / self.len()
    }

    /// The smallest sample.
    pub fn min(&self) -> (m: u64)
        requires
            self@.len() > 0,
        ensures
            self@.contains(m),
            forall|i: int| 0 <= i < self@.len() ==> m <= self@[i],
    {
        let mut m = self.samples[0];
        let mut i: usize = 1;
        while i < self.samples.len()
            invariant
                1 <= i <= self@.len(),
                self@.contains(m),
                forall|k: int| 0 <= k < i ==> m <= self@[k],
            decreases self@.len() - i,
        {
            if self.samples[i] < m {
                m = self.samples[i];
            }
            i += 1;
        }
        m
    }

    /// The largest sample.
    pub fn max(&self) -> (m: u64)
        requires
            self@.len() > 0,
        ensures
            self@.contains(m),
            forall|i: int| 0 <= i < self@.len() ==> m >= self@[i],
    {
        let mut m = self.samples[0];
        let mut i: usize = 1;
        while i < self.samples.len()
            invariant
                1 <= i <= self@.len(),
                self@.contains(m),
                forall|k: int| 0 <= k < i ==> m >= self@[k],
            decreases self@.len() - i,
        {
            if self.samples[i] > m {
                m = self.samples[i];
            }
            i += 1;
        }
        m
    }

    /// The number of samples above the average.
    pub fn above_avg(&self) -> (n: u64)
        requires
            self@.len() > 0,
            sum(self@) <= u64::MAX,
        ensures
            n == count_above(self@, self.spec_average() as u64),
    {
        let avg = self.average();
        let mut n: u64 = 0;
        let mut i: usize = 0;
        while i < self.samples.len()
            invariant
                i <= self@.len(),
                n == count_above(self@.take(i as int), avg),
            decreases self@.len() - i,
        {
            proof {
                lemma_prefix(self@, i as int, avg);
            }
            if self.samples[i] > avg {
                n = n + 1;
            }
            i += 1;
        }
        proof {
            assert(self@.take(i as int) =~= self@);
        }
        n
    }

    /// The number of samples below the average.
    pub fn below_avg(&self) -> (n: u64)
        requires
            self@.len() > 0,
            sum(self@) <= u64::MAX,
        ensures
            n == count_below(self@, self.spec_average() as u64),
    {
        let avg = self.average();
        let mut n: u64 = 0;
        let mut i: usize = 0;
        while i < self.samples.len()
            invariant
                i <= self@.len(),
                n == count_below(self@.take(i as int), avg),
            decreases self@.len() - i,
        {
            proof {
                lemma_prefix(self@, i as int, avg);
            }
            if self.samples[i] < avg {
                n = n + 1;
            }
            i += 1;
        }
        proof {
            assert(self@.take(i as int) =~= self@);
        }
        n
    }
}

/// The line that reports the figures of a run.
pub open spec fn report_text(
    average: nat,
    variance: nat,
    min: nat,
    max: nat,
    above: nat,
    below: nat,
) -> Seq<char> {
    thousands(average) + " ns/iter (+/- "@ + thousands(variance) + ") min="@ + decimal(min)
        + " max="@ + decimal(max) + " above="@ + decimal(above) + " below="@ + decimal(below)
}

/// The figures of a run as one line of a table, with semicolons between
/// them.
pub open spec fn csv_text(
    average: nat,
    variance: nat,
    min: nat,
    max: nat,
    above: nat,
    below: nat,
) -> Seq<char> {
    thousands(average) + ";"@ + thousands(variance) + ";"@ + decimal(min) + ";"@ + decimal(max)
        + ";"@ + decimal(above) + ";"@ + decimal(below)
}

impl BenchStats {
    /// The line that reports the figures of the run. The variance is given,
    /// the other figures are worked out.
    pub fn report(&self, variance: u64) -> (text: String)
        requires
            self@.len() > 0,
            sum(self@) <= u64::MAX,
        ensures
            exists|min: u64, max: u64|
                #![trigger report_text(self.spec_average(), variance as nat, min as nat, max as nat, count_above(self@, self.spec_average() as u64), count_below(self@, self.spec_average() as u64))]
                is_min(self@, min) && is_max(self@, max) && text@ == report_text(
                    self.spec_average(),
                    variance as nat,
                    min as nat,
                    max as nat,
                    count_above(self@, self.spec_average() as u64),
                    count_below(self@, self.spec_average() as u64),
                ),
    {
        proof {
            reveal_strlit(" ns/iter (+/- ");
            reveal_strlit(") min=");
            reveal_strlit(" max=");
            reveal_strlit(" above=");
            reveal_strlit(" below=");
        }
        let average = self.average();
        let min = self.min();
        let max = self.max();
        let above = self.above_avg();
        let below = self.below_avg();
        let mut text = fmt_thousands_sep(average);
        text.append(" ns/iter (+/- ");
        let v = fmt_thousands_sep(variance);
        text.append(v.as_str());
        text.append(") min=");
        push_decimal(&mut text, min);
        text.append(" max=");
        push_decimal(&mut text, max);
        text.append(" above=");
        push_decimal(&mut text, above);
        text.append(" below=");
        push_decimal(&mut text, below);
        proof {
            assert(text@ =~= report_text(
                average as nat,
                variance as nat,
                min as nat,
                max as nat,
                above as nat,
                below as nat,
            ));
        }
        text
    }

    /// The head of the table that `csv` writes the lines of.
    pub fn csv_header() -> (text: String)
        ensures
            text@ == "average;variance;min;max;#above avg;#below avg"@,
    {
        String::from_str("average;variance;min;max;#above avg;#below avg")
    }

    /// The figures of the run as one line of a table. The variance is given,
    /// the other figures are worked out.
    pub fn csv(&self, variance: u64) -> (text: String)
        requires
            self@.len() > 0,
            sum(self@) <= u64::MAX,
        ensures
            exists|min: u64, max: u64|
                #![trigger csv_text(self.spec_average(), variance as nat, min as nat, max as nat, count_above(self@, self.spec_average() as u64), count_below(self@, self.spec_average() as u64))]
                is_min(self@, min) && is_max(self@, max) && text@ == csv_text(
                    self.spec_average(),
                    variance as nat,
                    min as nat,
                    max as nat,
                    count_above(self@, self.spec_average() as u64),
                    count_below(self@, self.spec_average() as u64),
                ),
    {
        proof {
            reveal_strlit(";");
        }
        let average = self.average();
        let min = self.min();
        let max = self.max();
        let above = self.above_avg();
        let below = self.below_avg();
        let mut text = fmt_thousands_sep(average);
        text.append(";");
        let v = fmt_thousands_sep(variance);
        text.append(v.as_str());
        text.append(";");
        push_decimal(&mut text, min);
        text.append(";");
        push_decimal(&mut text, max);
        text.append(";");
        push_decimal(&mut text, above);
        text.append(";");
        push_decimal(&mut text, below);
        proof {
            assert(text@ =~= csv_text(
                average as nat,
                variance as nat,
                min as nat,
                max as nat,
                above as nat,
                below as nat,
            ));
        }
        text
    }
}

/// Whether `m` is the smallest value of `s`.
pub open spec fn is_min(s: Seq<u64>, m: u64) -> bool {
    s.contains(m) && forall|i: int| 0 <= i < s.len() ==> m <= s[i]
}

/// Whether `m` is the largest value of `s`.
pub open spec fn is_max(s: Seq<u64>, m: u64) -> bool {
    s.contains(m) && forall|i: int| 0 <= i < s.len() ==> m >= s[i]
}

/// What the first `k` runs of `stats` measured, as texts one after the other.
pub open spec fn plot_head(stats: Seq<BenchStats>, k: int) -> Seq<char>
    decreases k,
{
    if k <= 0 {
        Seq::empty()
    } else {
        plot_head(stats, k - 1) + ident_text(
            stats[k - 1].ident().spec_variant(),
            stats[k - 1].ident().spec_name(),
            stats[k - 1].ident().spec_threads() as nat,
        )
    }
}

/// The sample number `i` of a run, or zero where the run has fewer samples.
pub open spec fn sample_or_zero(samples: Seq<u64>, i: int) -> u64 {
    if 0 <= i < samples.len() {
        samples[i]
    } else {
        0
    }
}

/// The line number `i` of the plot data, as far as the first `k` runs fill
/// it: the sample number `i` of each run, with a blank behind each.
pub open spec fn plot_row(stats: Seq<BenchStats>, i: int, k: int) -> Seq<char>
    decreases k,
{
    if k <= 0 {
        Seq::empty()
    } else {
        plot_row(stats, i, k - 1) + decimal(sample_or_zero(stats[k - 1]@, i) as nat) + seq![' ']
    }
}

/// The first `n` lines of the plot data, each with its line end.
pub open spec fn plot_rows(stats: Seq<BenchStats>, n: int) -> Seq<char>
    decreases n,
{
    if n <= 0 {
        Seq::empty()
    } else {
        plot_rows(stats, n - 1) + plot_row(stats, n - 1, stats.len() as int) + seq!['\n']
    }
}

/// The largest number of samples among the first `k` runs.
pub open spec fn plot_lines(stats: Seq<BenchStats>, k: int) -> nat
    decreases k,
{
    if k <= 0 {
        0
    } else if stats[k - 1]@.len() > plot_lines(stats, k - 1) {
        stats[k - 1]@.len()
    } else {
        plot_lines(stats, k - 1)
    }
}

/// The plot data of `stats`: a line that says what the runs measured, and
/// then one line for each sample number, with the samples of all runs side by
/// side.
pub open spec fn plot_text(stats: Seq<BenchStats>) -> Seq<char> {
    plot_head(stats, stats.len() as int) + seq!['\n'] + plot_rows(
        stats,
        plot_lines(stats, stats.len() as int) as int,
    )
}

/// Turns the statistics into the data of a plot.
pub fn gnuplot(stats: &[BenchStats]) -> (s: String)
    ensures
        s@ == plot_text(stats@),
{
    proof {
        reveal_strlit("\n");
        reveal_strlit(" ");
    }
    let mut s = String::new();
    let mut lines: usize = 0;
    let mut k: usize = 0;
    while k < stats.len()
        invariant
            k <= stats@.len(),
            lines == plot_lines(stats@, k as int),
        decreases stats@.len() - k,
    {
        let n = stats[k].samples.len();
        if n > lines {
            lines = n;
        }
        k += 1;
    }
    let mut k: usize = 0;
    while k < stats.len()
        invariant
            k <= stats@.len(),
            s@ == plot_head(stats@, k as int),
        decreases stats@.len() - k,
    {
        let asd: String = stats[k].ident.string();
        s.append(asd.as_str());
        k += 1;
    }
    s.append("\n");
    let ghost head = s@;
    let mut i: usize = 0;
    while i < lines
        invariant
            i <= lines,
            s@ == head + plot_rows(stats@, i as int),
        decreases lines - i,
    {
        let ghost before = s@;
        let mut k: usize = 0;
        while k < stats.len()
            invariant
                k <= stats@.len(),
                s@ == before + plot_row(stats@, i as int, k as int),
            decreases stats@.len() - k,
        {
            let stat = &stats[k];
            let sample = if i < stat.samples.len() {
                stat.samples[i]
            } else {
                0
            };
            push_decimal(&mut s, sample);
            s.append(" ");
            proof {
                reveal_strlit(" ");
                assert(stat@ == stats@[k as int]@);
                assert(sample == sample_or_zero(stats@[k as int]@, i as int));
                assert(plot_row(stats@, i as int, k + 1) == plot_row(stats@, i as int, k as int)
                    + decimal(sample_or_zero(stats@[k as int]@, i as int) as nat) + seq![' ']);
                assert(s@ =~= before + plot_row(stats@, i as int, k + 1));
            }
            k += 1;
        }
        s.append("\n");
        proof {
            reveal_strlit("\n");
            assert(k == stats@.len());
            assert(plot_rows(stats@, i + 1) == plot_rows(stats@, i as int) + plot_row(
                stats@,
                i as int,
                stats@.len() as int,
            ) + seq!['\n']);
            assert(s@ =~= head + plot_rows(stats@, i + 1));
        }
        i += 1;
    }
    proof {
        assert(s@ =~= plot_text(stats@));
    }
    s
}

/// Calls `precise_time_ns` of the crate `time`: the reading of a clock in
/// nanoseconds, from a start that is not told. Nothing is claimed of the
/// number that comes back.
#[verifier::external_body]
fn precise_time_ns() -> (t: u64) {
    time::precise_time_ns()
}

/// The time from the reading `t0` to the reading `t1`, or zero where the
/// second reading is the lower one.
pub fn elapsed(t0: u64, t1: u64) -> (d: u64)
    ensures
        t1 >= t0 ==> d == t1 - t0,
        t1 < t0 ==> d == 0,
{
    if t1 >= t0 {
        t1 - t0
    } else {
        0
    }
}

/// The samples `after` are the samples `before` and `n` more behind them.
pub open spec fn grown_by(before: Seq<u64>, after: Seq<u64>, n: nat) -> bool {
    after.len() == before.len() + n && after.take(before.len() as int) == before
}

/// Runs `f` on `state` and returns the time that it took, in nanoseconds.
pub fn measure<S, F: Fn(&mut S)>(state: &mut S, f: &F) -> (d: u64)
    requires
        forall|s: &mut S| call_requires(*f, (s,)),
    ensures
        exists|s: &mut S|
            *s == *old(state) && #[trigger] call_ensures(*f, (s,), ()) && *final(s) == *final(state),
{
    let t0 = precise_time_ns();
    f(state);
    let t1 = precise_time_ns();
    elapsed(t0, t1)
}

/// Runs `f` on `state` for `n` times and puts the time that each run took
/// behind `samples`.
pub fn sample_runs<S, F: Fn(&mut S)>(samples: &mut Vec<u64>, n: usize, state: &mut S, f: &F)
    requires
        forall|s: &mut S| call_requires(*f, (s,)),
    ensures
        grown_by(old(samples)@, final(samples)@, n as nat),
{
    let mut i: usize = 0;
    assert(samples@.take(samples@.len() as int) =~= samples@);
    while i < n
        invariant
            i <= n,
            forall|s: &mut S| call_requires(*f, (s,)),
            grown_by(old(samples)@, samples@, i as nat),
        decreases n - i,
    {
        let d = measure(state, f);
        let ghost before = samples@;
        samples.push(d);
        proof {
            assert(samples@.take(old(samples)@.len() as int) =~= before.take(
                old(samples)@.len() as int,
            ));
        }
        i += 1;
    }
}

/// The samples as a text, each on a line of its own.
pub open spec fn samples_text(samples: Seq<u64>) -> Seq<char>
    decreases samples.len(),
{
    if samples.len() == 0 {
        Seq::empty()
    } else {
        samples_text(samples.drop_last()) + decimal(samples.last() as nat) + seq!['\n']
    }
}

/// Writes the samples as a text, each on a line of its own.
pub fn output_samples(samples: &Vec<u64>) -> (text: String)
    ensures
        text@ == samples_text(samples@),
{
    let mut text = String::new();
    let mut i: usize = 0;
    while i < samples.len()
        invariant
            i <= samples@.len(),
            text@ == samples_text(samples@.take(i as int)),
        decreases samples@.len() - i,
    {
        proof {
            reveal_strlit("\n");
            assert(samples@.take(i + 1).drop_last() =~= samples@.take(i as int));
        }
        push_decimal(&mut text, samples[i]);
        text.append("\n");
        proof {
            assert(text@ =~= samples_text(samples@.take(i + 1)));
        }
        i += 1;
    }
    proof {
        assert(samples@.take(i as int) =~= samples@);
    }
    text
}

/// The index of the first `::` of `s` at or behind `from`, or the length of
/// `s` where there is none.
pub open spec fn find_sep(s: Seq<char>, from: int) -> int
    decreases s.len() - from,
{
    if from < 0 || from + 1 >= s.len() {
        s.len() as int
    } else if s[from] == ':' && s[from + 1] == ':' {
        from
    } else {
        find_sep(s, from + 1)
    }
}

/// The indices of the separators `::` of `s` from `from` on: each is the
/// first one behind the one before it.
pub open spec fn seps(s: Seq<char>, from: int) -> Seq<int>
    decreases s.len() - from,
{
    let i = find_sep(s, from);
    if i < from || i + 2 > s.len() {
        Seq::empty()
    } else {
        seq![i] + seps(s, i + 2)
    }
}

/// The part number `k` of `s`, where `at` holds the indices of the
/// separators.
pub open spec fn part(s: Seq<char>, at: Seq<int>, k: int) -> Seq<char> {
    s.subrange(
        if k == 0 {
            0
        } else {
            at[k - 1] + 2
        },
        if k < at.len() {
            at[k]
        } else {
            s.len() as int
        },
    )
}

/// The value of the decimal digit `c`, if it is one.
pub open spec fn digit_value(c: char) -> Option<nat> {
    if c == '0' {
        Some(0)
    } else if c == '1' {
        Some(1)
    } else if c == '2' {
        Some(2)
    } else if c == '3' {
        Some(3)
    } else if c == '4' {
        Some(4)
    } else if c == '5' {
        Some(5)
    } else if c == '6' {
        Some(6)
    } else if c == '7' {
        Some(7)
    } else if c == '8' {
        Some(8)
    } else if c == '9' {
        Some(9)
    } else {
        None
    }
}

/// The number that the decimal digits `s` stand for, if all of `s` are
/// digits. No digits stand for zero.
pub open spec fn digits_value(s: Seq<char>) -> Option<nat>
    decreases s.len(),
{
    if s.len() == 0 {
        Some(0)
    } else {
        match (digits_value(s.drop_last()), digit_value(s.last())) {
            (Some(v), Some(d)) => Some(10 * v + d),
            _ => None,
        }
    }
}

/// The number of threads that `s` stands for: decimal digits, one at least,
/// with or without a plus sign before them, for a number that fits.
pub open spec fn parse_threads(s: Seq<char>) -> Option<usize> {
    let digits = if s.len() > 0 && s[0] == '+' {
        s.skip(1)
    } else {
        s
    };
    if digits.len() == 0 {
        None
    } else {
        match digits_value(digits) {
            Some(v) => if v <= usize::MAX {
                Some(v as usize)
            } else {
                None
            },
            None => None,
        }
    }
}

/// What the text `s` identifies: `variant::name::threads`, or
/// `variant::name::name::threads`, where the two names are joined by an
/// underscore. Any other text identifies nothing.
pub open spec fn parse_ident(s: Seq<char>) -> Option<(Seq<char>, Seq<char>, usize)> {
    let at = seps(s, 0);
    if at.len() == 2 {
        match parse_threads(part(s, at, 2)) {
            Some(t) => Some((part(s, at, 0), part(s, at, 1), t)),
            None => None,
        }
    } else if at.len() == 3 {
        match parse_threads(part(s, at, 3)) {
            Some(t) => Some((part(s, at, 0), part(s, at, 1) + seq!['_'] + part(s, at, 2), t)),
            None => None,
        }
    } else {
        None
    }
}

/// A longer row of digits stands for a larger number, or the same.
pub proof fn lemma_digits_grow(s: Seq<char>, i: int)
    requires
        0 <= i <= s.len(),
        digits_value(s) is Some,
    ensures
        digits_value(s.take(i)) is Some,
        digits_value(s.take(i))->0 <= digits_value(s)->0,
    decreases s.len() - i,
{
    if i == s.len() {
        assert(s.take(i) =~= s);
    } else {
        lemma_digits_all(s, i + 1);
        lemma_digits_grow(s, i + 1);
        assert(s.take(i + 1).drop_last() =~= s.take(i));
    }
}

/// Where a row of digits stands for a number, each part of it from the start
/// does.
pub proof fn lemma_digits_all(s: Seq<char>, i: int)
    requires
        0 <= i <= s.len(),
        digits_value(s) is Some,
    ensures
        digits_value(s.take(i)) is Some,
    decreases s.len() - i,
{
    if i == s.len() {
        assert(s.take(i) =~= s);
    } else {
        lemma_digits_all(s, i + 1);
        assert(s.take(i + 1).drop_last() =~= s.take(i));
    }
}

/// Where a part of a row from the start stands for no number, the row does
/// not either.
pub proof fn lemma_digits_none(s: Seq<char>, i: int)
    requires
        0 <= i <= s.len(),
        digits_value(s.take(i)) is None,
    ensures
        digits_value(s) is None,
{
    if digits_value(s) is Some {
        lemma_digits_all(s, i);
    }
}

/// The value of the digit `c`, if it is one.
pub fn digit_of(c: char) -> (d: Option<usize>)
    ensures
        d is Some <==> digit_value(c) is Some,
        d matches Some(v) ==> digit_value(c) == Some(v as nat),
{
    if c == '0' {
        Some(0)
    } else if c == '1' {
        Some(1)
    } else if c == '2' {
        Some(2)
    } else if c == '3' {
        Some(3)
    } else if c == '4' {
        Some(4)
    } else if c == '5' {
        Some(5)
    } else if c == '6' {
        Some(6)
    } else if c == '7' {
        Some(7)
    } else if c == '8' {
        Some(8)
    } else if c == '9' {
        Some(9)
    } else {
        None
    }
}

/// Reads a number of threads.
pub fn read_threads(s: &str) -> (r: Option<usize>)
    ensures
        r == parse_threads(s@),
{
    let n = s.unicode_len();
    let start: usize = if n > 0 && s.get_char(0) == '+' {
        1
    } else {
        0
    };
    if start == n {
        return None;
    }
    let ghost digits = s@.skip(start as int);
    let mut value: usize = 0;
    let mut i: usize = start;
    while i < n
        invariant
            start <= i <= n,
            start < n,
            n == s@.len(),
            digits == s@.skip(start as int),
            start == (if s@.len() > 0 && s@[0] == '+' {
                1int
            } else {
                0int
            }),
            digits_value(digits.take(i - start)) == Some(value as nat),
        decreases n - i,
    {
        let c = s.get_char(i);
        proof {
            assert(digits.take(i - start + 1).drop_last() =~= digits.take(i - start));
            assert(digits.take(i - start + 1).last() == c);
            if start == 0 {
                assert(digits =~= s@);
            }
        }
        let d = match digit_of(c) {
            Some(d) => d,
            None => {
                proof {
                    lemma_digits_none(digits, i - start + 1);
                }
                return None;
            },
        };
        let next = match value.checked_mul(10) {
            Some(v) => match v.checked_add(d) {
                Some(w) => w,
                None => {
                    proof {
                        if digits_value(digits) is Some {
                            lemma_digits_grow(digits, i - start + 1);
                        }
                    }
                    return None;
                },
            },
            None => {
                proof {
                    if digits_value(digits) is Some {
                        lemma_digits_grow(digits, i - start + 1);
                    }
                }
                return None;
            },
        };
        value = next;
        i += 1;
    }
    proof {
        assert(digits.take(i - start) =~= digits);
        if start == 0 {
            assert(digits =~= s@);
        }
    }
    Some(value)
}

/// Finds the separators `::` of `s`.
pub fn find_seps(s: &str) -> (at: Vec<usize>)
    ensures
        at@.len() == seps(s@, 0).len(),
        forall|k: int| 0 <= k < at@.len() ==> at@[k] == seps(s@, 0)[k],
        forall|k: int| 0 <= k < at@.len() ==> at@[k] + 2 <= s@.len(),
        forall|k: int| 0 < k < at@.len() ==> at@[k - 1] + 2 <= #[trigger] at@[k],
{
    let n = s.unicode_len();
    let mut at: Vec<usize> = Vec::new();
    let mut i: usize = 0;
    let ghost mut from: int = 0;
    while n - i >= 2
        invariant
            n == s@.len(),
            0 <= from <= i,
            i <= n,
            find_sep(s@, from) == find_sep(s@, i as int),
            seps(s@, 0) == at@.map(|k: int, x: usize| x as int) + seps(s@, from),
            forall|k: int| 0 <= k < at@.len() ==> at@[k] + 2 <= from,
            forall|k: int| 0 < k < at@.len() ==> at@[k - 1] + 2 <= #[trigger] at@[k],
        decreases n - i,
    {
        if s.get_char(i) == ':' && s.get_char(i + 1) == ':' {
            let ghost before = at@.map(|k: int, x: usize| x as int);
            at.push(i);
            proof {
                assert(at@.map(|k: int, x: usize| x as int) =~= before.push(i as int));
                assert(before + (seq![i as int] + seps(s@, i + 2)) =~= before.push(i as int)
                    + seps(s@, i + 2));
                from = i + 2;
            }
            i += 2;
        } else {
            i += 1;
        }
    }
    proof {
        let m = at@.map(|k: int, x: usize| x as int);
        assert(find_sep(s@, i as int) == s@.len());
        assert(seps(s@, from) =~= Seq::<int>::empty());
        assert(seps(s@, 0) =~= m);
        assert forall|k: int| 0 <= k < at@.len() implies at@[k] == seps(s@, 0)[k] by {
            assert(m[k] == at@[k]);
        }
    }
    at
}

impl BenchIdentifier {
    /// Reads an identifier from a text: `variant::name::threads`, or
    /// `variant::name::name::threads`, where the two names are joined by an
    /// underscore.
    pub fn from_str(s: &str) -> (r: Result<BenchIdentifier, ()>)
        ensures
            r is Ok <==> parse_ident(s@) is Some,
            r matches Ok(id) ==> parse_ident(s@) == Some(
                (id.spec_variant(), id.spec_name(), id.spec_threads()),
            ),
    {
        let at = find_seps(s);
        let n = s.unicode_len();
        proof {
            assert(seps(s@, 0) =~= at@.map(|k: int, x: usize| x as int));
            reveal_strlit("_");
        }
        if at.len() == 2 {
            let variant = s.substring_char(0, at[0]);
            let name = s.substring_char(at[0] + 2, at[1]);
            let threads = s.substring_char(at[1] + 2, n);
            match read_threads(threads) {
                Some(t) => Ok(
                    BenchIdentifier {
                        variant: String::from_str(variant),
                        name: String::from_str(name),
                        threads: t,
                    },
                ),
                None => Err(()),
            }
        } else if at.len() == 3 {
            let variant = s.substring_char(0, at[0]);
            let first = s.substring_char(at[0] + 2, at[1]);
            let second = s.substring_char(at[1] + 2, at[2]);
            let threads = s.substring_char(at[2] + 2, n);
            match read_threads(threads) {
                Some(t) => {
                    let mut name = String::from_str(first);
                    name.append("_");
                    name.append(second);
                    Ok(BenchIdentifier { variant: String::from_str(variant), name: name, threads: t })
                },
                None => Err(()),
            }
        } else {
            Err(())
        }
    }
}

} // verus!
