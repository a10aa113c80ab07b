use vstd::prelude::*;

use crate::buffer::{
    append_step, clamp_window, lemma_evict_keeps_floor, non_decreasing, Sample, WindowBuffer,
    WINDOW_DEFAULT_MS,
};

verus! {

// The acquisition session: one start/stop cycle of collecting readings. The
// session owns the consuming end of the sample queue and the instant the
// collection began; the producer that fills the queue runs in the shell,
// holding only the sending end. Dropping the consuming end on `stop` is the
// one cancellation signal the producer observes.

#[verifier::external_type_specification]
#[verifier::external_body]
#[verifier::reject_recursive_types(T)]
pub struct ExSender<T>(std::sync::mpsc::Sender<T>);

#[verifier::external_type_specification]
#[verifier::external_body]
#[verifier::reject_recursive_types(T)]
pub struct ExReceiver<T>(std::sync::mpsc::Receiver<T>);

#[verifier::external_type_specification]
#[verifier::external_body]
pub struct ExInstant(std::time::Instant);

/// Relies on std::sync::mpsc::channel: a fresh first-in-first-out queue;
/// the sender feeds it, the receiver drains it. Which values arrive depends
/// on what the producer later sends, so nothing is promised here.
#[verifier::external_body]
fn new_channel() -> (r: (std::sync::mpsc::Sender<u64>, std::sync::mpsc::Receiver<u64>)) {
    std::sync::mpsc::channel()
}

/// Relies on std::sync::mpsc::Receiver::try_iter: every value already
/// queued at the call, in the order they were sent, without blocking. What
/// the values are depends on the producer, so nothing is promised of them.
#[verifier::external_body]
fn drain_values(rx: &std::sync::mpsc::Receiver<u64>) -> (r: Vec<u64>) {
    rx.try_iter().collect()
}

/// Relies on std::time::Instant::now: the current instant.
#[verifier::external_body]
fn now_instant() -> (r: std::time::Instant) {
    std::time::Instant::now()
}

/// Relies on std::time::Instant::elapsed: the time since `start` was taken,
/// converted to whole milliseconds. A clock reading promises nothing.
#[verifier::external_body]
fn elapsed_ms(start: &std::time::Instant) -> (r: u64) {
    u64::try_from(start.elapsed().as_millis()).unwrap_or(u64::MAX)
}

/// The observable state of a session: whether it is collecting, the window
/// length it enforces, the retained samples, and the latest timestamp it
/// has handed out.
#[verifier::ext_equal]
pub struct SessionView {
    pub running: bool,
    pub window_ms: u64,
    pub samples: Seq<Sample>,
    pub last_ms: u64,
}

/// What `start` observes: a no-op while running or without a target;
/// otherwise a fresh running session with the window length kept.
pub open spec fn start_step(v: SessionView, has_target: bool) -> SessionView {
    if v.running || !has_target {
        v
    } else {
        SessionView { running: true, window_ms: v.window_ms, samples: Seq::empty(), last_ms: 0 }
    }
}

/// What `stop` observes: collection ends; the gathered samples stay.
pub open spec fn stop_step(v: SessionView) -> SessionView {
    SessionView { running: false, ..v }
}

/// A raw clock reading forced to be monotonic: never before the latest
/// timestamp already handed out.
pub open spec fn stamp(last_ms: u64, raw_ms: u64) -> u64 {
    if raw_ms > last_ms {
        raw_ms
    } else {
        last_ms
    }
}

/// What taking in one queued value observes: a no-op while idle; otherwise
/// the value is stamped and appended under the retention policy.
pub open spec fn ingest_step(v: SessionView, raw_ms: u64, value_bits: u64) -> SessionView {
    if !v.running {
        v
    } else {
        let t = stamp(v.last_ms, raw_ms);
        SessionView {
            samples: append_step(
                v.samples,
                Sample { elapsed_ms: t, value_bits },
                v.window_ms,
            ),
            last_ms: t,
            ..v
        }
    }
}

/// Starting twice in a row, without a stop between, observes exactly the
/// state that starting once does.
pub proof fn lemma_start_idempotent(v: SessionView, has_target: bool)
    ensures
        start_step(start_step(v, has_target), has_target) == start_step(v, has_target),
{
    assert(start_step(start_step(v, has_target), has_target) =~= start_step(v, has_target));
}

/// Stopping twice in a row is safe: the second stop observes nothing new.
pub proof fn lemma_stop_idempotent(v: SessionView)
    ensures
        stop_step(stop_step(v)) == stop_step(v),
{
    assert(stop_step(stop_step(v)) =~= stop_step(v));
}

/// Samples already drained, each no earlier than `last_ms` and in order.
pub open spec fn stamped_chain(last_ms: u64, vs: Seq<Sample>) -> bool {
    &&& (forall|i: int| 0 <= i < vs.len() ==> last_ms <= #[trigger] vs[i].elapsed_ms)
    &&& non_decreasing(vs)
}

/// Folding a drained batch into the buffer, one append at a time.
pub open spec fn append_all(s: Seq<Sample>, vs: Seq<Sample>, window_ms: u64) -> Seq<Sample>
    decreases vs.len(),
{
    if vs.len() == 0 {
        s
    } else {
        append_all(append_step(s, vs.first(), window_ms), vs.drop_first(), window_ms)
    }
}

/// How one poll relates the state before to the state after: some batch of
/// monotonically stamped samples was appended in order; nothing else moved.
pub open spec fn drained(v0: SessionView, v1: SessionView, vs: Seq<Sample>) -> bool {
    &&& v1.running == v0.running
    &&& v1.window_ms == v0.window_ms
    &&& v1.samples == append_all(v0.samples, vs, v0.window_ms)
    &&& stamped_chain(v0.last_ms, vs)
    &&& v1.last_ms == (if vs.len() == 0 {
        v0.last_ms
    } else {
        vs.last().elapsed_ms
    })
}

proof fn lemma_append_all_snoc(s: Seq<Sample>, vs: Seq<Sample>, x: Sample, window_ms: u64)
    ensures
        append_all(s, vs.push(x), window_ms) == append_step(
            append_all(s, vs, window_ms),
            x,
            window_ms,
        ),
    decreases vs.len(),
{
    if vs.len() == 0 {
        assert(vs.push(x).first() == x);
        assert(vs.push(x).drop_first() =~= Seq::<Sample>::empty());
        assert(append_all(s, vs.push(x), window_ms) == append_all(
            append_step(s, x, window_ms),
            Seq::<Sample>::empty(),
            window_ms,
        ));
        assert(append_all(append_step(s, x, window_ms), Seq::<Sample>::empty(), window_ms)
            == append_step(s, x, window_ms));
        assert(append_all(s, vs, window_ms) == s);
    } else {
        assert(vs.push(x).first() == vs.first());
        assert(vs.push(x).drop_first() =~= vs.drop_first().push(x));
        lemma_append_all_snoc(append_step(s, vs.first(), window_ms), vs.drop_first(), x, window_ms);
    }
}

/// One acquisition session: lifecycle state, the consuming end of the
/// sample queue, the instant collection started, and the windowed buffer.
pub struct Session {
    running: bool,
    rx: Option<std::sync::mpsc::Receiver<u64>>,
    started: Option<std::time::Instant>,
    buffer: WindowBuffer,
    last_ms: u64,
}

impl View for Session {
    type V = SessionView;

    closed spec fn view(&self) -> SessionView {
        SessionView {
            running: self.running,
            window_ms: self.buffer.window_ms_spec(),
            samples: self.buffer@,
            last_ms: self.last_ms,
        }
    }
}

impl Session {
    /// Well-formed: the buffer invariant holds, no stored sample is stamped
    /// later than `last_ms`, and the session is either fully live (queue
    /// end and start instant held) or fully torn down (neither held).
    pub closed spec fn wf(&self) -> bool {
        &&& self.buffer.wf()
        &&& (self@.samples.len() > 0 ==> self@.samples.last().elapsed_ms <= self.last_ms)
        &&& (self.running <==> self.rx is Some)
        &&& (self.running ==> self.started is Some)
    }

    /// Whether the session holds the consuming end of a sample queue.
    pub closed spec fn holds_channel(&self) -> bool {
        self.rx is Some
    }

    /// A well-formed session retains its samples in timestamp order, and
    /// holds a queue end exactly while it is running: it is never in a
    /// partial state between started and torn down.
    pub proof fn lemma_wf_consequences(&self)
        requires
            self.wf(),
        ensures
            non_decreasing(self@.samples),
            self.holds_channel() == self@.running,
    {
    }

    pub fn new() -> (r: Session)
        ensures
            r.wf(),
            !r@.running,
            r@.samples == Seq::<Sample>::empty(),
            r@.window_ms == WINDOW_DEFAULT_MS,
            r@.last_ms == 0,
    {
        Session {
            running: false,
            rx: None,
            started: None,
            buffer: WindowBuffer::new(),
            last_ms: 0,
        }
    }

    pub fn is_running(&self) -> (r: bool)
        ensures
            r == self@.running,
    {
        self.running
    }

    pub fn window_length_ms(&self) -> (r: u64)
        ensures
            r == self@.window_ms,
    {
        self.buffer.window_ms()
    }

    /// Replaces the window length, clamped to the accepted range; the
    /// stored samples and the lifecycle state are untouched.
    pub fn set_window_length_ms(&mut self, ms: u64)
        requires
            old(self).wf(),
        ensures
            final(self).wf(),
            final(self)@ == (SessionView { window_ms: clamp_window(ms), ..old(self)@ }),
    {
        self.buffer.set_window_length_ms(ms);
        proof {
            assert(self@ =~= (SessionView { window_ms: clamp_window(ms), ..old(self)@ }));
        }
    }

    /// Begins a collection cycle: a no-op while one is already running, and
    /// likewise when no connection target is configured. Otherwise the
    /// buffer is cleared, the clock restarts, a fresh queue is created, and
    /// the sending end comes back for the shell to hand its producer.
    pub fn start(&mut self, has_target: bool) -> (r: Option<std::sync::mpsc::Sender<u64>>)
        requires
            old(self).wf(),
        ensures
            final(self).wf(),
            final(self)@ == start_step(old(self)@, has_target),
            (r is Some) == (!old(self)@.running && has_target),
    {
        if self.running {
            proof {
                assert(self@ =~= start_step(old(self)@, has_target));
            }
            return None;
        }
        if !has_target {
            proof {
                assert(self@ =~= start_step(old(self)@, has_target));
            }
            return None;
        }
        let (tx, rx) = new_channel();
        self.rx = Some(rx);
        self.started = Some(now_instant());
        self.buffer.clear();
        self.last_ms = 0;
        self.running = true;
        proof {
            assert(self@ =~= start_step(old(self)@, has_target));
        }
        Some(tx)
    }

    /// Ends the collection cycle: a no-op while idle. Otherwise the
    /// consuming queue end is dropped — the cancellation signal the
    /// producer observes on its next send — and the session is idle again;
    /// the gathered samples stay readable. Returns whether a cycle was
    /// running, so the shell knows to await its producer.
    pub fn stop(&mut self) -> (r: bool)
        requires
            old(self).wf(),
        ensures
            final(self).wf(),
            final(self)@ == stop_step(old(self)@),
            !final(self).holds_channel(),
            r == old(self)@.running,
    {
        if !self.running {
            proof {
                assert(self@ =~= stop_step(old(self)@));
            }
            return false;
        }
        self.rx = None;
        self.started = None;
        self.running = false;
        proof {
            assert(self@ =~= stop_step(old(self)@));
        }
        true
    }

    /// Takes in one drained value: stamps it with a monotonic elapsed time
    /// and appends it under the retention policy. A no-op while idle.
    pub fn ingest(&mut self, raw_ms: u64, value_bits: u64)
        requires
            old(self).wf(),
        ensures
            final(self).wf(),
            final(self)@ == ingest_step(old(self)@, raw_ms, value_bits),
    {
        if !self.running {
            proof {
                assert(self@ =~= ingest_step(old(self)@, raw_ms, value_bits));
            }
            return;
        }
        let t: u64 = if raw_ms > self.last_ms {
            raw_ms
        } else {
            self.last_ms
        };
        let x = Sample { elapsed_ms: t, value_bits };
        self.buffer.append(x);
        self.last_ms = t;
        proof {
            lemma_evict_keeps_floor(old(self)@.samples.push(x), old(self)@.window_ms);
            assert(self@ =~= ingest_step(old(self)@, raw_ms, value_bits));
        }
    }

    /// Drains every value now waiting on the queue — never blocking — and
    /// appends each, stamped with its elapsed time; then hands back a
    /// snapshot of the buffer, oldest first. Timestamps in the snapshot
    /// never decrease. An idle session is left untouched.
    pub fn poll(&mut self) -> (r: Vec<Sample>)
        requires
            old(self).wf(),
        ensures
            final(self).wf(),
            r@ == final(self)@.samples,
            non_decreasing(r@),
            exists|vs: Seq<Sample>| drained(old(self)@, final(self)@, vs),
            !old(self)@.running ==> final(self)@ == old(self)@,
    {
        let ghost v0 = self@;
        let ghost mut vs: Seq<Sample> = Seq::empty();
        proof {
            assert(append_all(v0.samples, vs, v0.window_ms) == v0.samples);
            assert(drained(v0, self@, vs));
        }
        if self.running {
            let incoming: Vec<u64> = match &self.rx {
                Some(rx) => drain_values(rx),
                None => Vec::new(),
            };
            let mut k: usize = 0;
            while k < incoming.len()
                invariant
                    0 <= k <= incoming@.len(),
                    self.wf(),
                    v0.running,
                    drained(v0, self@, vs),
                decreases incoming@.len() - k,
            {
                let value_bits = incoming[k];
                let raw: u64 = match &self.started {
                    Some(st) => elapsed_ms(st),
                    None => 0,
                };
                let ghost before = self@;
                let ghost t = stamp(before.last_ms, raw);
                self.ingest(raw, value_bits);
                proof {
                    let x = Sample { elapsed_ms: t, value_bits };
                    lemma_append_all_snoc(v0.samples, vs, x, v0.window_ms);
                    assert(before.last_ms == (if vs.len() == 0 {
                        v0.last_ms
                    } else {
                        vs.last().elapsed_ms
                    }));
                    vs = vs.push(x);
                    assert forall|i: int, j: int| 0 <= i <= j < vs.len() implies vs[i].elapsed_ms
                        <= vs[j].elapsed_ms by {
                        if j < vs.len() - 1 {
                            assert(vs[i] == vs.drop_last()[i]);
                            assert(vs[j] == vs.drop_last()[j]);
                        }
                    }
                    assert(drained(v0, self@, vs));
                }
                k = k + 1;
            }
        }
        let snap = self.buffer.snapshot();
        proof {
            assert(drained(v0, self@, vs));
            assert(!v0.running ==> self@ =~= v0);
        }
        snap
    }
}

} // verus!
