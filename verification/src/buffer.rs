use vstd::prelude::*;

verus! {

/// Fewest samples retained once collected, so a renderer always has enough
/// points left to draw a line segment.
pub const RETAIN_FLOOR: usize = 2;

/// Shortest accepted window length, in milliseconds.
pub const WINDOW_MIN_MS: u64 = 4_000;

/// Longest accepted window length, in milliseconds.
pub const WINDOW_MAX_MS: u64 = 100_000;

/// Window length of a fresh buffer, in milliseconds.
pub const WINDOW_DEFAULT_MS: u64 = 10_000;

/// One reading: the instant it was drained, in milliseconds since the session
/// started, and the reading itself. The value is carried as an opaque 64-bit
/// pattern; the core never interprets it, only the rendering shell does.
#[derive(Clone, Copy, PartialEq, Eq, Structural, Debug)]
pub struct Sample {
    pub elapsed_ms: u64,
    pub value_bits: u64,
}

/// Timestamps never decrease along the sequence.
pub open spec fn non_decreasing(s: Seq<Sample>) -> bool {
    forall|i: int, j: int| 0 <= i <= j < s.len() ==> s[i].elapsed_ms <= s[j].elapsed_ms
}

/// A requested window length, forced into the accepted range.
pub open spec fn clamp_window(ms: u64) -> u64 {
    if ms < WINDOW_MIN_MS {
        WINDOW_MIN_MS
    } else if ms > WINDOW_MAX_MS {
        WINDOW_MAX_MS
    } else {
        ms
    }
}

/// Retention policy: drop samples from the front while the buffer holds more
/// than the floor and the front sample lies further than `window_ms` behind
/// the latest one.
pub open spec fn evict_spec(s: Seq<Sample>, window_ms: u64) -> Seq<Sample>
    decreases s.len(),
{
    if s.len() > RETAIN_FLOOR && s.last().elapsed_ms - s.first().elapsed_ms > window_ms {
        evict_spec(s.drop_first(), window_ms)
    } else {
        s
    }
}

/// What one append leaves behind: the new sample at the end, then eviction.
pub open spec fn append_step(s: Seq<Sample>, x: Sample, window_ms: u64) -> Seq<Sample> {
    evict_spec(s.push(x), window_ms)
}

/// Eviction returns a suffix of its input: it only ever removes from the front.
pub proof fn lemma_evict_is_suffix(s: Seq<Sample>, window_ms: u64)
    ensures
        evict_spec(s, window_ms).len() <= s.len(),
        evict_spec(s, window_ms) == s.skip(s.len() - evict_spec(s, window_ms).len()),
    decreases s.len(),
{
    let r = evict_spec(s, window_ms);
    if s.len() > RETAIN_FLOOR && s.last().elapsed_ms - s.first().elapsed_ms > window_ms {
        lemma_evict_is_suffix(s.drop_first(), window_ms);
        assert(s.drop_first().skip(s.drop_first().len() - r.len()) =~= s.skip(
            s.len() - r.len(),
        ));
    } else {
        assert(r =~= s.skip(s.len() - r.len()));
    }
}

/// Eviction keeps at least the floor (or everything, when the input is
/// already at or below it), and never touches the latest sample.
pub proof fn lemma_evict_keeps_floor(s: Seq<Sample>, window_ms: u64)
    ensures
        s.len() <= RETAIN_FLOOR ==> evict_spec(s, window_ms) == s,
        s.len() >= RETAIN_FLOOR ==> evict_spec(s, window_ms).len() >= RETAIN_FLOOR,
        s.len() > 0 ==> {
            let r = evict_spec(s, window_ms);
            r.len() > 0 && r.last() == s.last()
        },
    decreases s.len(),
{
    if s.len() > RETAIN_FLOOR && s.last().elapsed_ms - s.first().elapsed_ms > window_ms {
        lemma_evict_keeps_floor(s.drop_first(), window_ms);
        assert(s.drop_first().last() == s.last());
    }
}

/// A suffix of a non-decreasing sequence is itself non-decreasing.
pub proof fn lemma_suffix_non_decreasing(s: Seq<Sample>, k: int)
    requires
        non_decreasing(s),
        0 <= k <= s.len(),
    ensures
        non_decreasing(s.skip(k)),
{
    assert forall|i: int, j: int| 0 <= i <= j < s.skip(k).len() implies s.skip(k)[i].elapsed_ms
        <= s.skip(k)[j].elapsed_ms by {
        assert(s.skip(k)[i] == s[i + k]);
        assert(s.skip(k)[j] == s[j + k]);
    }
}

/// The window invariant: after eviction, either no more than the floor is
/// held, or every retained sample lies within the window of the latest one.
pub proof fn lemma_window_invariant(s: Seq<Sample>, window_ms: u64)
    requires
        non_decreasing(s),
    ensures
        ({
            let r = evict_spec(s, window_ms);
            r.len() <= RETAIN_FLOOR || forall|i: int|
                0 <= i < r.len() ==> r.last().elapsed_ms - r[i].elapsed_ms <= window_ms
        }),
    decreases s.len(),
{
    let r = evict_spec(s, window_ms);
    if s.len() > RETAIN_FLOOR && s.last().elapsed_ms - s.first().elapsed_ms > window_ms {
        lemma_suffix_non_decreasing(s, 1);
        assert(s.drop_first() =~= s.skip(1));
        lemma_window_invariant(s.drop_first(), window_ms);
    } else if s.len() > RETAIN_FLOOR {
        lemma_evict_keeps_floor(s, window_ms);
        assert forall|i: int| 0 <= i < r.len() implies r.last().elapsed_ms - r[i].elapsed_ms
            <= window_ms by {
            assert(r[0].elapsed_ms <= r[i].elapsed_ms);
        }
    }
}

/// The sliding window of recent samples, owned by the consumer side alone.
pub struct WindowBuffer {
    samples: Vec<Sample>,
    window_ms: u64,
}

impl View for WindowBuffer {
    type V = Seq<Sample>;

    closed spec fn view(&self) -> Seq<Sample> {
        self.samples@
    }
}

impl WindowBuffer {
    /// The window length this buffer currently enforces.
    pub closed spec fn window_ms_spec(&self) -> u64 {
        self.window_ms
    }

    /// Well-formed: timestamps in order, window length in the accepted range.
    pub open spec fn wf(&self) -> bool {
        &&& non_decreasing(self@)
        &&& WINDOW_MIN_MS <= self.window_ms_spec() <= WINDOW_MAX_MS
    }

    pub fn new() -> (r: Self)
        ensures
            r.wf(),
            r@ == Seq::<Sample>::empty(),
            r.window_ms_spec() == WINDOW_DEFAULT_MS,
    {
        WindowBuffer { samples: Vec::new(), window_ms: WINDOW_DEFAULT_MS }
    }

    pub fn len(&self) -> (r: usize)
        ensures
            r == self@.len(),
    {
        self.samples.len()
    }

    pub fn window_ms(&self) -> (r: u64)
        ensures
            r == self.window_ms_spec(),
    {
        self.window_ms
    }

    /// Replaces the window length, clamped to the accepted range. The stored
    /// samples are untouched; the next append enforces the new window.
    pub fn set_window_length_ms(&mut self, ms: u64)
        ensures
            final(self)@ == old(self)@,
            final(self).window_ms_spec() == clamp_window(ms),
            old(self).wf() ==> final(self).wf(),
    {
        self.window_ms = if ms < WINDOW_MIN_MS {
            WINDOW_MIN_MS
        } else if ms > WINDOW_MAX_MS {
            WINDOW_MAX_MS
        } else {
            ms
        };
    }

    /// Drops every stored sample; the window length is kept.
    pub fn clear(&mut self)
        ensures
            final(self)@ == Seq::<Sample>::empty(),
            final(self).window_ms_spec() == old(self).window_ms_spec(),
            old(self).wf() ==> final(self).wf(),
    {
        self.samples.clear();
    }

    /// Whether the retention policy asks for the front sample to leave.
    fn should_evict(&self) -> (r: bool)
        requires
            non_decreasing(self@),
        ensures
            r == (self@.len() > RETAIN_FLOOR && self@.last().elapsed_ms - self@.first().elapsed_ms
                > self.window_ms_spec()),
    {
        if self.samples.len() > RETAIN_FLOOR {
            let latest: u64 = self.samples[self.samples.len() - 1].elapsed_ms;
            let front: u64 = self.samples[0].elapsed_ms;
            proof {
                assert(self@[0].elapsed_ms <= self@[self@.len() - 1].elapsed_ms);
            }
            latest - front > self.window_ms
        } else {
            false
        }
    }

    /// Appends a sample at the end, then evicts from the front per the
    /// retention policy: old samples leave once they fall out of the window,
    /// but never below the floor count.
    pub fn append(&mut self, x: Sample)
        requires
            old(self).wf(),
            old(self)@.len() > 0 ==> x.elapsed_ms >= old(self)@.last().elapsed_ms,
        ensures
            final(self).wf(),
            final(self).window_ms_spec() == old(self).window_ms_spec(),
            final(self)@ == append_step(old(self)@, x, old(self).window_ms_spec()),
            final(self)@.len() <= RETAIN_FLOOR || forall|i: int|
                0 <= i < final(self)@.len() ==> final(self)@.last().elapsed_ms
                    - final(self)@[i].elapsed_ms <= final(self).window_ms_spec(),
    {
        let ghost pushed = old(self)@.push(x);
        let ghost w = self.window_ms;
        self.samples.push(x);
        proof {
            assert forall|i: int, j: int| 0 <= i <= j < self@.len() implies self@[i].elapsed_ms
                <= self@[j].elapsed_ms by {
                if j < self@.len() - 1 {
                    assert(old(self)@[i].elapsed_ms <= old(self)@[j].elapsed_ms);
                } else if i < self@.len() - 1 {
                    assert(old(self)@[i].elapsed_ms <= old(self)@.last().elapsed_ms);
                }
            }
        }
        while self.should_evict()
            invariant
                self.window_ms == w,
                non_decreasing(self.samples@),
                self.samples@.len() > 0,
                self.samples@.last() == pushed.last(),
                evict_spec(self.samples@, w) == evict_spec(pushed, w),
            decreases self.samples@.len(),
        {
            proof {
                assert(self.samples@[0].elapsed_ms <= self.samples@.last().elapsed_ms);
                assert(evict_spec(self.samples@, w) == evict_spec(self.samples@.drop_first(), w));
            }
            let ghost before = self.samples@;
            self.samples.remove(0);
            proof {
                assert(self.samples@ =~= before.drop_first());
                lemma_suffix_non_decreasing(before, 1);
                assert(before.skip(1) =~= before.drop_first());
            }
        }
        proof {
            assert(evict_spec(self.samples@, w) == self.samples@);
            lemma_window_invariant(pushed, w);
        }
    }

    /// A read-only copy of the retained samples, oldest first.
    pub fn snapshot(&self) -> (r: Vec<Sample>)
        ensures
            r@ == self@,
    {
        let mut out: Vec<Sample> = Vec::new();
        let mut i: usize = 0;
        while i < self.samples.len()
            invariant
                0 <= i <= self.samples@.len(),
                out@ == self.samples@.take(i as int),
            decreases self.samples@.len() - i,
        {
            out.push(self.samples[i]);
            proof {
                assert(out@ =~= self.samples@.take(i as int + 1));
            }
            i = i + 1;
        }
        proof {
            assert(out@ =~= self.samples@);
        }
        out
    }
}

} // verus!
