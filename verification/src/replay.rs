//! Sliding-window anti-replay filter over a 64-packet window.
use vstd::prelude::*;

verus! {

/// Width of the replay window, in packets.
pub const WINDOW: u64 = 64;

/// Whether bit `i` of `b` is set.
pub open spec fn bit(b: u64, i: u64) -> bool {
    (b >> i) & 1u64 == 1u64
}

/// Whether `after` is `before` once `counter` was accepted: it has started,
/// its highest counter is the larger of the two, and it refuses what
/// `before` refused, `counter` itself, and whatever has fallen a full window
/// behind the highest accepted counter.
pub open spec fn accept_step(before: ReplayWindow, after: ReplayWindow, counter: u64) -> bool {
    &&& after.started()
    &&& after.highest() == (if before.started() && before.highest() > counter {
        before.highest()
    } else {
        counter
    })
    &&& forall|x: u64|
        #![trigger after.rejects(x)]
        after.rejects(x) <==> (before.rejects(x) || x == counter || (x <= after.highest() && after.highest() - x
            >= WINDOW))
}

/// The largest counter of a non-empty sequence.
pub open spec fn max_of(cs: Seq<u64>) -> u64
    decreases cs.len(),
{
    if cs.len() <= 1 {
        cs[0]
    } else if max_of(cs.drop_last()) > cs.last() {
        max_of(cs.drop_last())
    } else {
        cs.last()
    }
}

/// Tracks the highest accepted counter and a bitmap of recently seen counters.
pub struct ReplayWindow {
    last: u64,
    bitmap: u64,
    seen_any: bool,
}

impl ReplayWindow {
    /// Whether any counter has been accepted yet.
    pub closed spec fn started(self) -> bool {
        self.seen_any
    }

    /// The highest counter accepted so far (meaningful once `started`).
    pub closed spec fn highest(self) -> u64 {
        self.last
    }

    /// Whether `counter` must be refused: it is at least a full window older
    /// than the highest accepted counter, or it has already been accepted.
    pub closed spec fn rejects(self, counter: u64) -> bool {
        &&& self.seen_any
        &&& counter <= self.last
        &&& (self.last - counter >= WINDOW || bit(self.bitmap, (self.last - counter) as u64))
    }

    pub fn new() -> (w: Self)
        ensures
            !w.started(),
            forall|c: u64| !w.rejects(c),
    {
        ReplayWindow { last: 0, bitmap: 0, seen_any: false }
    }

    /// Read-only acceptability check: `true` unless `counter` is too old or has
    /// already been seen.
    pub fn check(&self, counter: u64) -> (ok: bool)
        ensures
            ok == !self.rejects(counter),
    {
        if !self.seen_any || counter > self.last {
            return true;
        }
        let diff = self.last - counter;
        if diff >= WINDOW {
            return false;
        }
        let b = self.bitmap;
        assert(((b >> diff) & 1u64 == 0u64) <==> !((b >> diff) & 1u64 == 1u64)) by (bit_vector);
        (b >> diff) & 1 == 0
    }

    /// Commit `counter` as seen.
    pub fn accept(&mut self, counter: u64)
        ensures
            final(self).started(),
            final(self).highest() == (if old(self).started() && old(self).highest() > counter {
                old(self).highest()
            } else {
                counter
            }),
            forall|x: u64|
                #![trigger final(self).rejects(x)]
                final(self).rejects(x) <==> (old(self).rejects(x) || x == counter || (x
                    <= final(self).highest() && final(self).highest() - x >= WINDOW)),
            accept_step(*old(self), *final(self), counter),
    {
        if !self.seen_any {
            self.seen_any = true;
            self.last = counter;
            self.bitmap = 1;
            assert forall|x: u64| #![trigger self.rejects(x)] self.rejects(x) <==> (x == counter || (
            x <= self.last && self.last - x >= WINDOW)) by {
                if x <= counter && counter - x < WINDOW {
                    lemma_bit_one((counter - x) as u64);
                }
            }
            return;
        }
        let ghost old_w = *self;
        if counter > self.last {
            let shift = counter - self.last;
            let b = self.bitmap;
            if shift >= WINDOW {
                self.bitmap = 1;
            } else {
                self.bitmap = (b << shift) | 1;
            }
            self.last = counter;
            assert forall|x: u64| #![trigger self.rejects(x)] self.rejects(x) <==> (old_w.rejects(x)
                || x == counter || (x <= self.last && self.last - x >= WINDOW)) by {
                if x <= counter && counter - x < WINDOW {
                    let d = (counter - x) as u64;
                    if shift >= WINDOW {
                        lemma_bit_one(d);
                    } else {
                        lemma_bit_shift_or_one(b, shift, d);
                    }
                }
            }
        } else {
            let diff = self.last - counter;
            let b = self.bitmap;
            if diff < WINDOW {
                self.bitmap = b | (1u64 << diff);
                assert forall|x: u64| #![trigger self.rejects(x)] self.rejects(x) <==> (
                old_w.rejects(x) || x == counter || (x <= self.last && self.last - x >= WINDOW)) by {
                    if x <= self.last && self.last - x < WINDOW {
                        lemma_bit_or_single(b, diff, (self.last - x) as u64);
                    }
                }
            }
        }
    }
}

proof fn lemma_bit_one(d: u64)
    requires
        d < 64,
    ensures
        bit(1u64, d) <==> d == 0,
{
    assert(((1u64 >> d) & 1u64 == 1u64) <==> d == 0) by (bit_vector)
        requires
            d < 64,
    ;
}

proof fn lemma_bit_shift_or_one(b: u64, s: u64, d: u64)
    requires
        0 < s < 64,
        d < 64,
    ensures
        bit((b << s) | 1u64, d) <==> (d == 0 || (d >= s && bit(b, (d - s) as u64))),
{
    assert(((((b << s) | 1u64) >> d) & 1u64 == 1u64) <==> (d == 0 || (d >= s && ((b >> ((d
        - s) as u64)) & 1u64 == 1u64)))) by (bit_vector)
        requires
            0 < s < 64,
            d < 64,
    ;
}

proof fn lemma_bit_or_single(b: u64, i: u64, d: u64)
    requires
        i < 64,
        d < 64,
    ensures
        bit(b | (1u64 << i), d) <==> (bit(b, d) || d == i),
{
    assert((((b | (1u64 << i)) >> d) & 1u64 == 1u64) <==> (((b >> d) & 1u64 == 1u64) || d == i))
        by (bit_vector)
        requires
            i < 64,
            d < 64,
    ;
}

/// No counter is accepted twice: along any run of windows `ws` where each
/// window passes the check on `cs[i]` and then accepts it, giving
/// `ws[i + 1]`, every accepted counter is refused from then on, so the
/// counters accepted are pairwise distinct.
pub proof fn law_no_counter_accepted_twice(ws: Seq<ReplayWindow>, cs: Seq<u64>)
    requires
        ws.len() == cs.len() + 1,
        forall|i: int| 0 <= i < cs.len() ==> !(#[trigger] ws[i]).rejects(cs[i]),
        forall|i: int| 0 <= i < cs.len() ==> accept_step(#[trigger] ws[i], ws[i + 1], cs[i]),
    ensures
        forall|i: int, j: int| 0 <= i < j < ws.len() ==> (#[trigger] ws[j]).rejects(#[trigger] cs[i]),
        forall|i: int, j: int| 0 <= i < j < cs.len() ==> #[trigger] cs[i] != #[trigger] cs[j],
    decreases cs.len(),
{
    if cs.len() > 0 {
        let n = cs.len() - 1;
        law_no_counter_accepted_twice(ws.drop_last(), cs.drop_last());
        assert forall|i: int, j: int| 0 <= i < j < ws.len() implies (#[trigger] ws[j]).rejects(#[trigger] cs[i]) by {
            if j < ws.len() - 1 {
                assert(ws.drop_last()[j] == ws[j]);
                assert(cs.drop_last()[i] == cs[i]);
            } else {
                assert(accept_step(ws[n], ws[n + 1], cs[n]));
                if i < n {
                    assert(ws.drop_last()[n] == ws[n]);
                    assert(cs.drop_last()[i] == cs[i]);
                    assert(ws[n].rejects(cs[i]));
                }
                assert(ws[n + 1].rejects(cs[i]));
            }
        }
        assert forall|i: int, j: int| 0 <= i < j < cs.len() implies #[trigger] cs[i] != #[trigger] cs[j] by {
            assert(ws[j].rejects(cs[i]));
            assert(!ws[j].rejects(cs[j]));
        }
    }
}

proof fn lemma_step_form(
    started: bool,
    m: u64,
    c: u64,
    m2: u64,
    x: u64,
    in_prev: bool,
    in_all: bool,
    before_r: bool,
    after_r: bool,
)
    requires
        before_r <==> (started && x <= m && (m - x >= WINDOW || in_prev)),
        after_r <==> (before_r || x == c || (x <= m2 && m2 - x >= WINDOW)),
        m2 == (if started && m > c { m } else { c }),
        in_all <==> (in_prev || x == c),
        !started ==> !in_prev,
        in_prev ==> x <= m,
    ensures
        after_r <==> (x <= m2 && (m2 - x >= WINDOW || in_all)),
{
}

proof fn lemma_contains_last(cs: Seq<u64>, x: u64)
    requires
        cs.len() > 0,
    ensures
        cs.contains(x) <==> (cs.drop_last().contains(x) || x == cs.last()),
{
    let pc = cs.drop_last();
    if cs.contains(x) {
        let j = choose|j: int| 0 <= j < cs.len() && cs[j] == x;
        if j < cs.len() - 1 {
            assert(pc[j] == x);
        }
    }
    if pc.contains(x) {
        let j = choose|j: int| 0 <= j < pc.len() && pc[j] == x;
        assert(cs[j] == x);
    }
    if x == cs.last() {
        assert(cs[cs.len() - 1] == x);
    }
}

proof fn lemma_max_of_bounds(cs: Seq<u64>, x: u64)
    requires
        cs.len() > 0,
        cs.contains(x),
    ensures
        x <= max_of(cs),
    decreases cs.len(),
{
    lemma_contains_last(cs, x);
    if cs.len() > 1 && cs.drop_last().contains(x) {
        lemma_max_of_bounds(cs.drop_last(), x);
    }
}

/// The window's state in closed form: after a fresh window accepts the
/// counters `cs`, in any order and repeats included, it refuses exactly the
/// counters at most the highest accepted that are a full window behind it
/// or were accepted; so `check(c)` passes exactly when nothing was accepted,
/// `c` is above the highest, or `c` is within the window and new.
pub proof fn law_window_closed_form(ws: Seq<ReplayWindow>, cs: Seq<u64>)
    requires
        ws.len() == cs.len() + 1,
        !ws[0].started(),
        forall|x: u64| !ws[0].rejects(x),
        forall|i: int| 0 <= i < cs.len() ==> accept_step(#[trigger] ws[i], ws[i + 1], cs[i]),
    ensures
        cs.len() > 0 ==> ws.last().started() && ws.last().highest() == max_of(cs),
        forall|x: u64|
            #[trigger] ws.last().rejects(x) <==> (cs.len() > 0 && x <= max_of(cs) && (max_of(cs) - x >= WINDOW
                || cs.contains(x))),
    decreases cs.len(),
{
    if cs.len() > 0 {
        let n = cs.len() - 1;
        let pw = ws.drop_last();
        let pc = cs.drop_last();
        assert forall|i: int| 0 <= i < pc.len() implies accept_step(#[trigger] pw[i], pw[i + 1], pc[i]) by {
            assert(accept_step(ws[i], ws[i + 1], cs[i]));
        }
        law_window_closed_form(pw, pc);
        let before = ws[n];
        let after = ws[n + 1];
        assert(pw.last() == before);
        assert(accept_step(before, after, cs[n]));
        assert(ws.last() == after);
        let m = if n > 0 { max_of(pc) } else { 0 };
        assert(after.highest() == max_of(cs));
        assert forall|x: u64| #[trigger] after.rejects(x) <==> (x <= max_of(cs) && (max_of(cs) - x >= WINDOW
            || cs.contains(x))) by {
            lemma_contains_last(cs, x);
            if pc.contains(x) {
                lemma_max_of_bounds(pc, x);
            }
            assert(before.rejects(x) <==> (before.started() && x <= m && (m - x >= WINDOW || pc.contains(x))));
            assert(after.rejects(x) <==> (before.rejects(x) || x == cs[n] || (x <= after.highest()
                && after.highest() - x >= WINDOW)));
            lemma_step_form(
                before.started(),
                m,
                cs[n],
                max_of(cs),
                x,
                pc.contains(x),
                cs.contains(x),
                before.rejects(x),
                after.rejects(x),
            );
        }
    } else {
        assert forall|x: u64| #[trigger] ws.last().rejects(x) <==> false by {
            assert(ws.last() == ws[0]);
        }
    }
}

} // verus!
