use vstd::prelude::*;
use vstd::string::*;

verus! {

/// Sum of a sequence of samples.
pub open spec fn seq_sum(s: Seq<u32>) -> int
    decreases s.len(),
{
    if s.len() == 0 {
        0
    } else {
        seq_sum(s.drop_last()) + s.last()
    }
}

/// Decimal digits of `n`, most significant first.
pub open spec fn decimal(n: nat) -> Seq<char>
    decreases n,
{
    if n < 10 {
        seq![digit_char(n)]
    } else {
        decimal(n / 10) + seq![digit_char(n % 10)]
    }
}

pub open spec fn digit_char(d: nat) -> char {
    if d == 0 {
        '0'
    } else if d == 1 {
        '1'
    } else if d == 2 {
        '2'
    } else if d == 3 {
        '3'
    } else if d == 4 {
        '4'
    } else if d == 5 {
        '5'
    } else if d == 6 {
        '6'
    } else if d == 7 {
        '7'
    } else if d == 8 {
        '8'
    } else {
        '9'
    }
}

/// `n` spaces.
pub open spec fn spaces(n: nat) -> Seq<char>
    decreases n,
{
    if n == 0 {
        seq![]
    } else {
        spaces((n - 1) as nat) + seq![' ']
    }
}

/// `s` followed by spaces up to `width` characters.
pub open spec fn pad_right(s: Seq<char>, width: nat) -> Seq<char> {
    if s.len() < width {
        s + spaces((width - s.len()) as nat)
    } else {
        s
    }
}

/// `s` preceded by spaces up to `width` characters.
pub open spec fn pad_left(s: Seq<char>, width: nat) -> Seq<char> {
    if s.len() < width {
        spaces((width - s.len()) as nat) + s
    } else {
        s
    }
}

/// One line of the summary: the name in 16 columns, the average in 4, then the unit.
pub open spec fn summary_row(name: Seq<char>, average: u32) -> Seq<char> {
    pad_right(name, 16) + pad_left(decimal(average as nat), 4) + " μs\n"@
}

/// The lines for the first `n` profiles.
pub open spec fn summary_rows(names: Seq<Seq<char>>, averages: Seq<u32>, n: nat) -> Seq<char>
    decreases n,
{
    if n == 0 {
        seq![]
    } else {
        summary_rows(names, averages, (n - 1) as nat) + summary_row(
            names[n - 1],
            averages[n - 1],
        )
    }
}

/// Sum of the first `n` averages.
pub open spec fn total_of(averages: Seq<u32>, n: nat) -> int
    decreases n,
{
    if n == 0 {
        0
    } else {
        total_of(averages, (n - 1) as nat) + averages[n - 1]
    }
}

/// The last line of the summary, for a total of `total` microseconds.
pub open spec fn summary_total(total: nat) -> Seq<char> {
    if total == 0 {
        "Total              0 μs (NA fps)"@
    } else {
        "Total           "@ + pad_left(decimal(total), 4) + " μs ("@ + decimal(1_000_000nat / total)
            + " fps)"@
    }
}

/// Rolling record of the last `SAMPLES` timings, in microseconds, of `COUNT` named parts of a
/// frame.
pub struct Profiler<const COUNT: usize, const SAMPLES: usize> {
    sample_i: usize,
    names: [&'static str; COUNT],
    profiles: Vec<Profile<SAMPLES>>,
}

/// The last `SAMPLES` timings of one part, and their sum.
pub struct Profile<const SAMPLES: usize> {
    sum: u32,
    micros: Vec<u32>,
}

impl<const SAMPLES: usize> Profile<SAMPLES> {
    /// The stored samples.
    pub closed spec fn samples(&self) -> Seq<u32> {
        self.micros@
    }

    /// The cached sum equals the sum of the `SAMPLES` stored samples.
    pub closed spec fn wf(&self) -> bool {
        &&& self.micros@.len() == SAMPLES
        &&& self.sum == seq_sum(self.micros@)
    }

    /// A well-formed profile holds `SAMPLES` samples.
    pub proof fn lemma_sample_count(&self)
        requires
            self.wf(),
        ensures
            self.samples().len() == SAMPLES,
    {
    }

    /// Mean of the samples, rounded down.
    pub open spec fn spec_average(&self) -> u32 {
        (seq_sum(self.samples()) / SAMPLES as int) as u32
    }

    /// A profile whose samples are all zero.
    fn zeroed() -> (r: Self)
        ensures
            r.wf(),
            r.samples() == Seq::new(SAMPLES as nat, |i: int| 0u32),
    {
        let micros = vec![0u32; SAMPLES];
        proof {
            lemma_sum_zeros(micros@);
        }
        Profile { sum: 0, micros }
    }

    /// Mean of the samples, rounded down.
    fn average(&self) -> (r: u32)
        requires
            self.wf(),
            0 < SAMPLES <= u32::MAX,
        ensures
            r == self.spec_average(),
    {
        proof {
            lemma_sum_bound(self.micros@);
        }
        self.sum / (SAMPLES as u32)
    }

    /// Replaces the sample at `next_i` with `micro`, keeping the sum up to date.
    pub fn add_sample(&mut self, micro: u32, next_i: usize)
        requires
            old(self).wf(),
            next_i < SAMPLES,
            seq_sum(old(self).samples()) + micro <= u32::MAX,
        ensures
            final(self).wf(),
            final(self).samples() == old(self).samples().update(next_i as int, micro),
    {
        let last = self.micros[next_i];
        proof {
            lemma_sum_update(self.micros@, next_i as int, micro);
            lemma_sum_bound(self.micros@);
            lemma_sum_ge_element(self.micros@, next_i as int);
        }
        self.micros.set(next_i, micro);
        self.sum += micro;
        self.sum -= last;
    }
}

impl<const SAMPLES: usize> Default for Profile<SAMPLES> {
    fn default() -> (r: Self)
        ensures
            r.wf(),
            r.samples() == Seq::new(SAMPLES as nat, |i: int| 0u32),
    {
        Self::zeroed()
    }
}

/// The sum of zeros is zero.
pub proof fn lemma_sum_zeros(s: Seq<u32>)
    requires
        forall|i: int| 0 <= i < s.len() ==> s[i] == 0,
    ensures
        seq_sum(s) == 0,
    decreases s.len(),
{
    if s.len() > 0 {
        lemma_sum_zeros(s.drop_last());
    }
}

/// A sum of samples is never negative.
pub proof fn lemma_sum_bound(s: Seq<u32>)
    ensures
        seq_sum(s) >= 0,
    decreases s.len(),
{
    if s.len() > 0 {
        lemma_sum_bound(s.drop_last());
    }
}

/// A sum of samples is at least each of its samples.
pub proof fn lemma_sum_ge_element(s: Seq<u32>, i: int)
    requires
        0 <= i < s.len(),
    ensures
        seq_sum(s) >= s[i],
    decreases s.len(),
{
    lemma_sum_bound(s.drop_last());
    if i < s.len() - 1 {
        lemma_sum_ge_element(s.drop_last(), i);
    }
}

/// Replacing one sample changes the sum by the difference.
pub proof fn lemma_sum_update(s: Seq<u32>, i: int, v: u32)
    requires
        0 <= i < s.len(),
    ensures
        seq_sum(s.update(i, v)) == seq_sum(s) - s[i] + v,
    decreases s.len(),
{
    if i == s.len() - 1 {
        assert(s.update(i, v).drop_last() =~= s.drop_last());
    } else {
        lemma_sum_update(s.drop_last(), i, v);
        assert(s.update(i, v).drop_last() =~= s.drop_last().update(i, v));
    }
}

impl<const COUNT: usize, const SAMPLES: usize> Profiler<COUNT, SAMPLES> {
    /// Index of the sample slot written in the current frame.
    pub closed spec fn sample_index(&self) -> usize {
        self.sample_i
    }

    /// Names of the profiled parts.
    pub closed spec fn names(&self) -> Seq<Seq<char>> {
        Seq::new(COUNT as nat, |k: int| self.names@[k]@)
    }

    /// Stored samples of part `k`.
    pub closed spec fn samples(&self, k: int) -> Seq<u32> {
        self.profiles@[k].samples()
    }

    /// Average of each part.
    pub closed spec fn averages(&self) -> Seq<u32> {
        Seq::new(COUNT as nat, |k: int| self.profiles@[k].spec_average())
    }

    pub closed spec fn wf(&self) -> bool {
        &&& self.profiles@.len() == COUNT
        &&& forall|k: int| 0 <= k < COUNT ==> (#[trigger] self.profiles@[k]).wf()
        &&& if SAMPLES == 0 {
            self.sample_i == 0
        } else {
            self.sample_i < SAMPLES
        }
    }

    /// What the model of a well-formed profiler holds: `COUNT` parts of `SAMPLES` samples
    /// each, whose averages are the sums of their samples divided by `SAMPLES`.
    pub proof fn lemma_model(&self)
        requires
            self.wf(),
        ensures
            self.names().len() == COUNT,
            self.averages().len() == COUNT,
            SAMPLES == 0 ==> self.sample_index() == 0,
            SAMPLES > 0 ==> self.sample_index() < SAMPLES,
            forall|k: int|
                0 <= k < COUNT ==> {
                    &&& (#[trigger] self.samples(k)).len() == SAMPLES
                    &&& self.averages()[k] == (seq_sum(self.samples(k)) / SAMPLES as int) as u32
                },
    {
        assert forall|k: int| 0 <= k < COUNT implies (#[trigger] self.samples(k)).len() == SAMPLES by {
            assert(self.profiles@[k].wf());
        }
    }

    /// After `n` more frames the sample slot has moved on by `n`, modulo `SAMPLES`: after
    /// `SAMPLES` frames a part's next sample replaces the oldest one of the window.
    pub proof fn law_slot_cycle(start: nat, n: nat)
        requires
            SAMPLES > 0,
            start < SAMPLES,
        ensures
            slot_after(start, n, SAMPLES as nat) == (start + n) % (SAMPLES as nat),
            slot_after(start, SAMPLES as nat, SAMPLES as nat) == start,
    {
        lemma_slot_after(start, n, SAMPLES as nat);
        lemma_slot_after(start, SAMPLES as nat, SAMPLES as nat);
        vstd::arithmetic::div_mod::lemma_mod_add_multiples_vanish(start as int, SAMPLES as int);
        vstd::arithmetic::div_mod::lemma_small_mod(start, SAMPLES as nat);
    }

    /// The summary printed by `summary`.
    pub open spec fn spec_summary(&self) -> Seq<char> {
        summary_rows(self.names(), self.averages(), COUNT as nat) + summary_total(
            total_of(self.averages(), COUNT as nat) as nat,
        )
    }

    /// A profiler for the named parts, with every sample zero.
    pub fn new(names: [&'static str; COUNT]) -> (r: Self)
        ensures
            r.wf(),
            r.sample_index() == 0,
            r.names() == Seq::new(COUNT as nat, |k: int| names@[k]@),
            forall|k: int|
                0 <= k < COUNT ==> #[trigger] r.samples(k) == Seq::new(SAMPLES as nat, |i: int| 0u32),
            SAMPLES > 0 ==> total_of(r.averages(), COUNT as nat) == 0,
    {
        let mut profiles: Vec<Profile<SAMPLES>> = Vec::new();
        let mut n: usize = 0;
        while n < COUNT
            invariant
                n <= COUNT,
                profiles@.len() == n,
                forall|k: int|
                    0 <= k < n ==> (#[trigger] profiles@[k]).wf() && profiles@[k].samples() == Seq::new(
                        SAMPLES as nat,
                        |i: int| 0u32,
                    ),
            decreases COUNT - n,
        {
            profiles.push(Profile::zeroed());
            n = n + 1;
        }
        let r = Self { sample_i: 0, names, profiles };
        proof {
            if SAMPLES > 0 {
                assert forall|k: int| 0 <= k < COUNT implies #[trigger] r.averages()[k] == 0 by {
                    lemma_sum_zeros(r.samples(k));
                }
                lemma_total_zero(r.averages(), COUNT as nat);
            }
        }
        r
    }

    /// Records `micro` as this frame's sample of part `profile_i`.
    pub fn add_sample(&mut self, micro: u32, profile_i: usize)
        requires
            old(self).wf(),
            profile_i < COUNT,
            SAMPLES > 0,
            seq_sum(old(self).samples(profile_i as int)) + micro <= u32::MAX,
        ensures
            final(self).wf(),
            final(self).sample_index() == old(self).sample_index(),
            final(self).names() == old(self).names(),
            final(self).samples(profile_i as int) == old(self).samples(profile_i as int).update(
                old(self).sample_index() as int,
                micro,
            ),
            forall|k: int|
                0 <= k < COUNT && k != profile_i ==> #[trigger] final(self).samples(k) == old(
                    self,
                ).samples(k),
    {
        let ghost s0 = *self;
        let i = self.sample_i;
        assert(self.profiles@[profile_i as int].wf());
        self.profiles[profile_i].add_sample(micro, i);
        assert(self.names() =~= s0.names());
    }

    /// Moves on to the next sample slot, wrapping around after the last.
    pub fn end_frame(&mut self)
        requires
            old(self).wf(),
            SAMPLES > 0,
        ensures
            final(self).wf(),
            final(self).sample_index() == (old(self).sample_index() + 1) % (SAMPLES as int),
            final(self).names() == old(self).names(),
            forall|k: int| 0 <= k < COUNT ==> #[trigger] final(self).samples(k) == old(self).samples(k),
    {
        self.sample_i = (self.sample_i + 1) % SAMPLES;
    }

    /// One line per part with its average, then the total and the frame rate it gives.
    pub fn summary(&self) -> (out: String)
        requires
            self.wf(),
            0 < SAMPLES <= u32::MAX,
            total_of(self.averages(), COUNT as nat) <= u32::MAX,
        ensures
            out@ == self.spec_summary(),
    {
        let mut out = String::new();
        let mut total: u32 = 0;
        let mut k: usize = 0;
        while k < COUNT
            invariant
                self.wf(),
                0 < SAMPLES <= u32::MAX,
                total_of(self.averages(), COUNT as nat) <= u32::MAX,
                k <= COUNT,
                total == total_of(self.averages(), k as nat),
                out@ == summary_rows(self.names(), self.averages(), k as nat),
            decreases COUNT - k,
        {
            proof {
                lemma_total_mono(self.averages(), (k + 1) as nat, COUNT as nat);
            }
            assert(self.profiles@[k as int].wf());
            let ave = self.profiles[k].average();
            assert(ave == self.averages()[k as int]);
            push_padded_right(&mut out, self.names[k], 16);
            push_decimal_padded(&mut out, ave, 4);
            let unit = " μs\n";
            proof {
                reveal_strlit(" μs\n");
            }
            out.append(unit);
            total = total + ave;
            k = k + 1;
        }
        if total == 0 {
            let last = "Total              0 μs (NA fps)";
            proof {
                reveal_strlit("Total              0 μs (NA fps)");
            }
            out.append(last);
        } else {
            let head = "Total           ";
            proof {
                reveal_strlit("Total           ");
            }
            out.append(head);
            push_decimal_padded(&mut out, total, 4);
            let mid = " μs (";
            proof {
                reveal_strlit(" μs (");
            }
            out.append(mid);
            push_decimal(&mut out, 1_000_000 / total);
            let tail = " fps)";
            proof {
                reveal_strlit(" fps)");
            }
            out.append(tail);
        }
        out
    }
}

/// The sample slot after `n` calls of `end_frame` from slot `start`.
pub open spec fn slot_after(start: nat, n: nat, samples: nat) -> nat
    decreases n,
{
    if n == 0 {
        start
    } else {
        ((slot_after(start, (n - 1) as nat, samples) + 1) % samples) as nat
    }
}

proof fn lemma_slot_after(start: nat, n: nat, samples: nat)
    requires
        samples > 0,
        start < samples,
    ensures
        slot_after(start, n, samples) == (start + n) % samples,
    decreases n,
{
    if n > 0 {
        lemma_slot_after(start, (n - 1) as nat, samples);
        // ((a % s) + 1) % s == (a + 1) % s
        vstd::arithmetic::div_mod::lemma_add_mod_noop_right(1, (start + n - 1) as int, samples as int);
        let prev = slot_after(start, (n - 1) as nat, samples);
        assert(prev == (start + n - 1) as int % (samples as int));
        assert((1 + ((start + n - 1) as int % samples as int)) % (samples as int) == ((start + n) as int) % (
        samples as int));
        assert(slot_after(start, n, samples) == ((prev + 1) % samples) as nat);
        assert((prev + 1) as int % (samples as int) == (1 + prev as int) % (samples as int));
    } else {
        vstd::arithmetic::div_mod::lemma_small_mod(start, samples);
    }
}

proof fn lemma_total_zero(averages: Seq<u32>, n: nat)
    requires
        n <= averages.len(),
        forall|k: int| 0 <= k < n ==> averages[k] == 0,
    ensures
        total_of(averages, n) == 0,
    decreases n,
{
    if n > 0 {
        lemma_total_zero(averages, (n - 1) as nat);
    }
}

proof fn lemma_total_mono(averages: Seq<u32>, a: nat, b: nat)
    requires
        a <= b,
    ensures
        total_of(averages, a) <= total_of(averages, b),
    decreases b,
{
    if a < b {
        lemma_total_mono(averages, a, (b - 1) as nat);
    }
}

/// The string of the decimal digit `d`.
fn digit_str(d: u32) -> (r: &'static str)
    requires
        d < 10,
    ensures
        r@ == seq![digit_char(d as nat)],
{
    if d == 0 {
        proof {
            reveal_strlit("0");
        }
        "0"
    } else if d == 1 {
        proof {
            reveal_strlit("1");
        }
        "1"
    } else if d == 2 {
        proof {
            reveal_strlit("2");
        }
        "2"
    } else if d == 3 {
        proof {
            reveal_strlit("3");
        }
        "3"
    } else if d == 4 {
        proof {
            reveal_strlit("4");
        }
        "4"
    } else if d == 5 {
        proof {
            reveal_strlit("5");
        }
        "5"
    } else if d == 6 {
        proof {
            reveal_strlit("6");
        }
        "6"
    } else if d == 7 {
        proof {
            reveal_strlit("7");
        }
        "7"
    } else if d == 8 {
        proof {
            reveal_strlit("8");
        }
        "8"
    } else {
        proof {
            reveal_strlit("9");
        }
        "9"
    }
}

/// Appends the decimal digits of `n`.
fn push_decimal(out: &mut String, n: u32)
    ensures
        final(out)@ == old(out)@ + decimal(n as nat),
    decreases n,
{
    if n >= 10 {
        push_decimal(out, n / 10);
    }
    out.append(digit_str(n % 10));
    assert(final(out)@ =~= old(out)@ + decimal(n as nat));
}

/// Appends `n` spaces.
fn push_spaces(out: &mut String, n: usize)
    ensures
        final(out)@ == old(out)@ + spaces(n as nat),
{
    let mut k: usize = 0;
    let ghost start = out@;
    while k < n
        invariant
            k <= n,
            out@ == start + spaces(k as nat),
        decreases n - k,
    {
        let sp = " ";
        proof {
            reveal_strlit(" ");
        }
        out.append(sp);
        k = k + 1;
        assert(out@ =~= start + spaces(k as nat));
    }
}

/// Appends `s`, then spaces up to `width` characters.
fn push_padded_right(out: &mut String, s: &str, width: usize)
    ensures
        final(out)@ == old(out)@ + pad_right(s@, width as nat),
{
    let ghost start = out@;
    out.append(s);
    let len = s.unicode_len();
    if len < width {
        push_spaces(out, width - len);
    }
    assert(out@ =~= start + pad_right(s@, width as nat));
}

/// Appends spaces up to `width` characters, then the decimal digits of `n`.
fn push_decimal_padded(out: &mut String, n: u32, width: usize)
    ensures
        final(out)@ == old(out)@ + pad_left(decimal(n as nat), width as nat),
{
    let ghost start = out@;
    let mut digits = String::new();
    push_decimal(&mut digits, n);
    assert(digits@ =~= decimal(n as nat));
    let len = digits.as_str().unicode_len();
    if len < width {
        push_spaces(out, width - len);
    }
    out.append(digits.as_str());
    assert(out@ =~= start + pad_left(decimal(n as nat), width as nat));
}

} // verus!
