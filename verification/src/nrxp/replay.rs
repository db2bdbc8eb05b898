//! Counters of datagrams: their short form on the wire, and the window that lets each one
//! through at most once.

use vstd::arithmetic::div_mod::{
    lemma_basic_div, lemma_div_pos_is_pos, lemma_fundamental_div_mod, lemma_mod_bound,
    lemma_mod_decreases, lemma_mod_multiples_vanish, lemma_small_mod,
};
use vstd::arithmetic::power2::{
    lemma2_to64_rest, lemma_pow2_pos, lemma_pow2_strictly_increases, lemma_pow2_unfold, pow2,
};
use vstd::bits::{lemma_u64_pow2_no_overflow, lemma_u64_shl_is_mul};
use vstd::prelude::*;

verus! {

/// How many counters the window spans.
pub const REPLAY_WINDOW_SIZE: u64 = 1024;

/// The counter that a short one stands for, when `highest` is the highest so far: among the
/// counters with these low `bits` bits, the nearest.
pub open spec fn expanded(highest: int, truncated: int, bits: nat) -> int {
    let window = pow2(bits) as int;
    let half = pow2((bits - 1) as nat) as int;
    let candidate = highest - highest % window + truncated % window;
    if candidate + half <= highest {
        candidate + window
    } else if candidate > highest + half && candidate >= window {
        candidate - window
    } else {
        candidate
    }
}

/// The low `bits` bits of a counter.
pub open spec fn truncated(full: int, bits: nat) -> int {
    full % (pow2(bits) as int)
}

/// The sizes of the window on the wire.
pub proof fn lemma_wire_window(bits: nat)
    requires
        1 <= bits < 64,
    ensures
        pow2(bits) == 2 * pow2((bits - 1) as nat),
        pow2((bits - 1) as nat) >= 1,
        pow2(bits) <= 0x8000_0000_0000_0000,
{
    lemma_pow2_unfold(bits);
    lemma_pow2_pos((bits - 1) as nat);
    lemma2_to64_rest();
    if bits < 63 {
        lemma_pow2_strictly_increases(bits, 63);
    }
    assert(pow2(63) == 0x8000_0000_0000_0000);
}

/// A short counter stands for one with the same low bits, less than half a window away from
/// the highest so far, or half a window above it. When that would be below zero, it is the
/// first counter with these bits.
pub proof fn lemma_expanded_is_nearest(highest: int, wire: int, bits: nat)
    requires
        1 <= bits < 64,
        highest >= 0,
        wire >= 0,
    ensures
        ({
            let window = pow2(bits) as int;
            let half = pow2((bits - 1) as nat) as int;
            let full = expanded(highest, wire, bits);
            &&& full >= 0
            &&& truncated(full, bits) == truncated(wire, bits)
            &&& full <= highest + half || full < window
            &&& full > highest - half
        }),
{
    lemma_wire_window(bits);
    let window = pow2(bits) as int;
    let base = highest - highest % window;
    let low = wire % window;
    let candidate = base + low;
    lemma_fundamental_div_mod(highest, window);
    let q = highest / window;
    assert(window * q == q * window) by (nonlinear_arith);
    lemma_div_pos_is_pos(highest, window);
    lemma_mod_multiples_vanish(q, low, window);
    lemma_mod_multiples_vanish(q + 1, low, window);
    lemma_mod_multiples_vanish(q - 1, low, window);
    assert(window * (q + 1) == window * q + window) by (nonlinear_arith);
    assert(window * (q - 1) == window * q - window) by (nonlinear_arith);
    lemma_small_mod(low as nat, window as nat);
    assert(window * q >= 0) by (nonlinear_arith)
        requires
            window >= 0,
            q >= 0,
    ;
}

/// How far two counters are apart.
pub open spec fn distance(a: int, b: int) -> int {
    if a <= b {
        b - a
    } else {
        a - b
    }
}

/// Among all counters with the same low bits, the one that a short counter stands for is the
/// nearest to the one after the highest so far.
pub proof fn lemma_no_counter_is_nearer(highest: int, wire: int, bits: nat, other: int)
    requires
        1 <= bits < 64,
        highest >= 0,
        wire >= 0,
        other >= 0,
        truncated(other, bits) == truncated(wire, bits),
    ensures
        distance(expanded(highest, wire, bits), highest + 1) <= distance(other, highest + 1),
{
    lemma_wire_window(bits);
    lemma_expanded_is_nearest(highest, wire, bits);
    let window = pow2(bits) as int;
    let full = expanded(highest, wire, bits);
    lemma_fundamental_div_mod(full, window);
    lemma_fundamental_div_mod(other, window);
    let a = full / window;
    let b = other / window;
    assert(full - other == window * (a - b)) by (nonlinear_arith)
        requires
            full == window * a + full % window,
            other == window * b + other % window,
            full % window == other % window,
    ;
    if a > b {
        assert(window * (a - b) >= window) by (nonlinear_arith)
            requires
                a - b >= 1,
                window >= 0,
        ;
        if full < window {
            lemma_basic_div(full, window);
            lemma_div_pos_is_pos(other, window);
        }
    } else if a < b {
        assert(window * (a - b) <= -window) by (nonlinear_arith)
            requires
                a - b <= -1,
                window >= 0,
        ;
    }
}

/// Cutting a counter short loses nothing while it is near the highest so far: less than half
/// a window below it, or up to half a window above.
pub proof fn lemma_truncate_expand_round_trip(highest: int, full: int, bits: nat)
    requires
        1 <= bits < 64,
        highest >= 0,
        full >= 0,
        highest - pow2((bits - 1) as nat) < full <= highest + pow2((bits - 1) as nat),
    ensures
        expanded(highest, truncated(full, bits), bits) == full,
{
    lemma_wire_window(bits);
    lemma_expanded_is_nearest(highest, truncated(full, bits), bits);
    let window = pow2(bits) as int;
    let other = expanded(highest, truncated(full, bits), bits);
    let low = full % window;
    lemma_mod_bound(full, window);
    lemma_small_mod(low as nat, window as nat);
    lemma_fundamental_div_mod(full, window);
    lemma_fundamental_div_mod(other, window);
    let a = full / window;
    let b = other / window;
    assert(full - other == window * (a - b)) by (nonlinear_arith)
        requires
            full == window * a + low,
            other == window * b + low,
    ;
    if a > b {
        assert(window * (a - b) >= window) by (nonlinear_arith)
            requires
                a - b >= 1,
                window >= 0,
        ;
    } else if a < b {
        assert(window * (a - b) <= -window) by (nonlinear_arith)
            requires
                a - b <= -1,
                window >= 0,
        ;
        lemma_div_pos_is_pos(full, window);
        if other < window {
            lemma_basic_div(other, window);
        }
    }
}

/// The counter that is nearest to itself.
pub proof fn lemma_expand_at_highest(full: int, wire: int, bits: nat)
    requires
        1 <= bits < 64,
        full >= 0,
        truncated(full, bits) == truncated(wire, bits),
    ensures
        expanded(full, wire, bits) == full,
{
    lemma_wire_window(bits);
}

/// The counter that a short one stands for. It has to be one that 64 bits can hold.
pub fn expand_counter(highest: u64, truncated: u64, bits: u32) -> (r: u64)
    requires
        1 <= bits < 64,
        expanded(highest as int, truncated as int, bits as nat) <= u64::MAX,
    ensures
        r == expanded(highest as int, truncated as int, bits as nat),
{
    nearest_counter(highest, truncated, bits) as u64
}

/// The counter that a short one stands for, even where it is more than 64 bits can hold.
pub(crate) fn nearest_counter(highest: u64, truncated: u64, bits: u32) -> (r: u128)
    requires
        1 <= bits < 64,
    ensures
        r == expanded(highest as int, truncated as int, bits as nat),
{
    proof {
        lemma_wire_window(bits as nat);
        lemma_u64_pow2_no_overflow(bits as nat);
        lemma_u64_shl_is_mul(1, bits as u64);
        lemma_expanded_is_nearest(highest as int, truncated as int, bits as nat);
        lemma_mod_decreases(highest as nat, pow2(bits as nat));
    }
    let window: u64 = 1u64 << (bits as u64);
    let half: u64 = window / 2;
    let low: u64 = truncated % window;
    let candidate: u128 = (highest - highest % window) as u128 + low as u128;
    if candidate + half as u128 <= highest as u128 {
        candidate + window as u128
    } else if candidate > highest as u128 + half as u128 && candidate >= window as u128 {
        candidate - window as u128
    } else {
        candidate
    }
}

/// What of a counter goes on the wire: its low bits.
pub fn truncate_counter(full: u64, bits: u32) -> (r: u64)
    requires
        1 <= bits < 64,
    ensures
        r == truncated(full as int, bits as nat),
{
    proof {
        lemma_wire_window(bits as nat);
        lemma_u64_pow2_no_overflow(bits as nat);
        lemma_u64_shl_is_mul(1, bits as u64);
    }
    full % (1u64 << (bits as u64))
}

/// What a window knows: whether it has let a counter through yet, the highest one, and the
/// ones that the window still spans.
#[verifier::ext_equal]
pub struct WindowView {
    /// Whether a counter came through yet.
    pub started: bool,
    /// The highest counter that came through, zero at first.
    pub highest: u64,
    /// The counters that came through, as far as the window spans them.
    pub seen: Set<int>,
}

impl WindowView {
    /// A window that has seen nothing.
    pub open spec fn fresh() -> Self {
        WindowView { started: false, highest: 0, seen: Set::empty() }
    }

    /// Whether the parts of the window agree.
    pub open spec fn wf(self) -> bool {
        if self.started {
            &&& self.seen.contains(self.highest as int)
            &&& forall|c: int| #[trigger]
                self.seen.contains(c) ==> c <= self.highest < c + REPLAY_WINDOW_SIZE
        } else {
            self == Self::fresh()
        }
    }

    /// Whether a counter comes through: a new highest one does, and one that the window spans
    /// and that has not come through yet.
    pub open spec fn accepts(self, counter: u64) -> bool {
        ||| !self.started
        ||| counter > self.highest
        ||| self.highest - counter < REPLAY_WINDOW_SIZE && !self.seen.contains(counter as int)
    }

    /// The window once a counter was tried.
    pub open spec fn tried(self, counter: u64) -> Self {
        if !self.accepts(counter) {
            self
        } else {
            let highest = if !self.started || counter > self.highest {
                counter
            } else {
                self.highest
            };
            WindowView {
                started: true,
                highest,
                seen: Set::new(
                    |c: int|
                        c == counter || self.seen.contains(c) && highest < c + REPLAY_WINDOW_SIZE,
                ),
            }
        }
    }

    /// The window once counters were tried one after the other.
    pub open spec fn after(self, counters: Seq<u64>) -> Self
        decreases counters.len(),
    {
        if counters.len() == 0 {
            self
        } else {
            self.after(counters.drop_last()).tried(counters.last())
        }
    }
}

/// Trying a counter keeps the window's parts in agreement.
pub proof fn lemma_tried_wf(w: WindowView, counter: u64)
    requires
        w.wf(),
    ensures
        w.tried(counter).wf(),
        w.accepts(counter) ==> !w.tried(counter).accepts(counter),
{
}

/// Whatever counters arrive in whatever order, each comes through at most once.
pub proof fn lemma_at_most_once(counters: Seq<u64>, i: int, j: int)
    requires
        0 <= i < j < counters.len(),
        counters[i] == counters[j],
    ensures
        !(WindowView::fresh().after(counters.subrange(0, i)).accepts(counters[i])
            && WindowView::fresh().after(counters.subrange(0, j)).accepts(counters[j])),
{
    let c = counters[i];
    let before = WindowView::fresh().after(counters.subrange(0, i));
    lemma_after_wf(counters.subrange(0, i));
    if before.accepts(c) {
        assert(counters.subrange(0, i + 1).drop_last() =~= counters.subrange(0, i));
        lemma_tried_wf(before, c);
        lemma_stays_closed(counters, c, i + 1, j);
    }
}

/// Every window that counters were tried on has parts that agree.
proof fn lemma_after_wf(counters: Seq<u64>)
    ensures
        WindowView::fresh().after(counters).wf(),
    decreases counters.len(),
{
    if counters.len() > 0 {
        lemma_after_wf(counters.drop_last());
        lemma_tried_wf(WindowView::fresh().after(counters.drop_last()), counters.last());
    }
}

/// A counter that does not come through any more never will again.
proof fn lemma_stays_closed(counters: Seq<u64>, c: u64, i: int, j: int)
    requires
        0 <= i <= j <= counters.len(),
        !WindowView::fresh().after(counters.subrange(0, i)).accepts(c),
    ensures
        !WindowView::fresh().after(counters.subrange(0, j)).accepts(c),
    decreases j,
{
    if i < j {
        lemma_stays_closed(counters, c, i, j - 1);
        assert(counters.subrange(0, j).drop_last() =~= counters.subrange(0, j - 1));
        lemma_after_wf(counters.subrange(0, j - 1));
    }
}

/// Whether the bit of a slot is set.
spec fn slot_set(bitmap: Seq<u64>, slot: int) -> bool {
    bitmap[slot / 64] & (1u64 << ((slot % 64) as u64)) != 0
}

/// Setting a bit sets that bit and no other.
proof fn lemma_set_bit(word: u64, a: u64, b: u64)
    requires
        a < 64,
        b < 64,
    ensures
        (word | (1u64 << a)) & (1u64 << b) != 0 <==> a == b || word & (1u64 << b) != 0,
{
    assert((word | (1u64 << a)) & (1u64 << b) != 0 <==> a == b || word & (1u64 << b) != 0)
        by (bit_vector)
        requires
            a < 64,
            b < 64,
    ;
}

/// Clearing a bit clears that bit and no other.
proof fn lemma_clear_bit(word: u64, a: u64, b: u64)
    requires
        a < 64,
        b < 64,
    ensures
        (word & !(1u64 << a)) & (1u64 << b) != 0 <==> a != b && word & (1u64 << b) != 0,
{
    assert((word & !(1u64 << a)) & (1u64 << b) != 0 <==> a != b && word & (1u64 << b) != 0)
        by (bit_vector)
        requires
            a < 64,
            b < 64,
    ;
}

/// A window over the counters of one epoch in one direction. It comes after authentication:
/// it filters repeats out of what is genuine.
pub struct ReplayWindow {
    initialized: bool,
    highest: u64,
    bitmap: [u64; 16],
}

impl View for ReplayWindow {
    type V = WindowView;

    closed spec fn view(&self) -> WindowView {
        WindowView {
            started: self.initialized,
            highest: self.highest,
            seen: Set::new(
                |c: int|
                    0 <= c <= self.highest < c + REPLAY_WINDOW_SIZE && slot_set(
                        self.bitmap@,
                        c % 1024,
                    ),
            ),
        }
    }
}

impl ReplayWindow {
    /// Whether the window is one that counters were tried on.
    pub closed spec fn wf(self) -> bool {
        &&& self@.wf()
        &&& !self.initialized ==> forall|s: int| 0 <= s < 1024 ==> !slot_set(self.bitmap@, s)
    }

    /// A window that has seen nothing.
    pub fn new() -> (r: Self)
        ensures
            r.wf(),
            r@ == WindowView::fresh(),
    {
        let r: Self = Self { initialized: false, highest: 0, bitmap: [0u64; 16] };
        proof {
            assert forall|s: int| 0 <= s < 1024 implies !slot_set(r.bitmap@, s) by {
                let b = (s % 64) as u64;
                assert(0u64 & (1u64 << b) == 0) by (bit_vector);
            }
            assert(r@.seen =~= Set::empty());
        }
        r
    }

    /// The highest counter that came through, zero at first.
    pub fn highest(&self) -> (r: u64)
        ensures
            r == self@.highest,
    {
        self.highest
    }

    /// The word and the bit of a counter.
    fn slot(counter: u64) -> (r: (usize, u64))
        ensures
            r.0 == (counter % 1024) / 64,
            r.1 == 1u64 << ((counter % 1024) % 64),
            r.0 < 16,
    {
        let idx: u64 = counter % REPLAY_WINDOW_SIZE;
        ((idx / 64) as usize, 1u64 << (idx % 64))
    }

    fn set_bit(&mut self, counter: u64)
        ensures
            final(self).initialized == old(self).initialized,
            final(self).highest == old(self).highest,
            forall|s: int|
                0 <= s < 1024 ==> (#[trigger] slot_set(final(self).bitmap@, s) <==> s == counter
                    % 1024 || slot_set(old(self).bitmap@, s)),
    {
        let (word, bit): (usize, u64) = Self::slot(counter);
        let ghost before = self.bitmap@;
        self.bitmap[word] = self.bitmap[word] | bit;
        proof {
            lemma_slots_set(before, self.bitmap@, (counter % 1024) as int);
        }
    }

    /// Marks a counter, and tells whether it was marked already.
    fn test_and_set_bit(&mut self, counter: u64) -> (r: bool)
        ensures
            r == slot_set(old(self).bitmap@, (counter % 1024) as int),
            final(self).initialized == old(self).initialized,
            final(self).highest == old(self).highest,
            forall|s: int|
                0 <= s < 1024 ==> (#[trigger] slot_set(final(self).bitmap@, s) <==> s == counter
                    % 1024 || slot_set(old(self).bitmap@, s)),
    {
        let (word, bit): (usize, u64) = Self::slot(counter);
        let already: bool = self.bitmap[word] & bit != 0;
        self.set_bit(counter);
        already
    }

    /// Makes room for counters up to `shift` above the highest: their slots still hold what
    /// fell out of the window.
    fn advance(&mut self, shift: u64)
        requires
            old(self).highest + shift <= u64::MAX,
        ensures
            final(self).initialized == old(self).initialized,
            final(self).highest == old(self).highest,
            forall|s: int|
                0 <= s < 1024 ==> (#[trigger] slot_set(final(self).bitmap@, s) <==> slot_set(
                    old(self).bitmap@,
                    s,
                ) && (s - old(self).highest - 1) % 1024 >= shift),
    {
        if shift >= REPLAY_WINDOW_SIZE {
            self.bitmap = [0u64; 16];
            proof {
                assert forall|s: int| 0 <= s < 1024 implies !slot_set(self.bitmap@, s) by {
                    let b = (s % 64) as u64;
                    assert(0u64 & (1u64 << b) == 0) by (bit_vector);
                }
            }
            return;
        }
        let ghost before = self.bitmap@;
        let mut k: u64 = 0;
        while k < shift
            invariant
                k <= shift < 1024,
                self.highest + shift <= u64::MAX,
                self.initialized == old(self).initialized,
                self.highest == old(self).highest,
                forall|s: int|
                    0 <= s < 1024 ==> (#[trigger] slot_set(self.bitmap@, s) <==> slot_set(before, s)
                        && (s - self.highest - 1) % 1024 >= k),
            decreases shift - k,
        {
            let (word, bit): (usize, u64) = Self::slot(self.highest + 1 + k);
            let ghost now = self.bitmap@;
            let ghost at = (self.highest + 1 + k) % 1024;
            self.bitmap[word] = self.bitmap[word] & !bit;
            proof {
                lemma_slots_cleared(now, self.bitmap@, at);
                assert forall|s: int| 0 <= s < 1024 implies (#[trigger] slot_set(self.bitmap@, s)
                    <==> slot_set(before, s) && (s - self.highest - 1) % 1024 >= k + 1) by {
                    assert((s - self.highest - 1) % 1024 == k <==> s == at);
                }
            }
            k = k + 1;
        }
    }

    /// Tries a counter. `false` for a repeat, and for one that is too far behind to tell.
    pub fn accept(&mut self, counter: u64) -> (r: bool)
        requires
            old(self).wf(),
        ensures
            final(self).wf(),
            r == old(self)@.accepts(counter),
            final(self)@ == old(self)@.tried(counter),
    {
        let ghost before = *self;
        proof {
            lemma_tried_wf(self@, counter);
        }
        if !self.initialized {
            self.initialized = true;
            self.highest = counter;
            self.set_bit(counter);
            proof {
                lemma_marked(before, *self, counter);
            }
            return true;
        }
        if counter > self.highest {
            let shift: u64 = counter - self.highest;
            self.advance(shift);
            self.highest = counter;
            self.set_bit(counter);
            proof {
                lemma_moved(before, *self, counter);
            }
            return true;
        }
        let behind: u64 = self.highest - counter;
        if behind >= REPLAY_WINDOW_SIZE {
            return false;
        }
        let repeated: bool = self.test_and_set_bit(counter);
        proof {
            lemma_filled(before, *self, counter);
        }
        !repeated
    }
}

/// The first counter.
proof fn lemma_marked(before: ReplayWindow, after: ReplayWindow, counter: u64)
    requires
        before.wf(),
        !before.initialized,
        after.initialized,
        after.highest == counter,
        forall|s: int|
            0 <= s < 1024 ==> (#[trigger] slot_set(after.bitmap@, s) <==> s == counter % 1024
                || slot_set(before.bitmap@, s)),
    ensures
        after@ == before@.tried(counter),
{
    assert forall|c: int| after@.seen.contains(c) <==> before@.tried(counter).seen.contains(c) by {
        if 0 <= c <= counter < c + 1024 {
            assert(slot_set(after.bitmap@, c % 1024) <==> c % 1024 == counter % 1024);
        }
    }
    assert(after@.seen =~= before@.tried(counter).seen);
}

/// A counter above the highest.
proof fn lemma_moved(before: ReplayWindow, after: ReplayWindow, counter: u64)
    requires
        before.initialized,
        after.initialized,
        counter > before.highest,
        after.highest == counter,
        forall|s: int|
            0 <= s < 1024 ==> (#[trigger] slot_set(after.bitmap@, s) <==> s == counter % 1024
                || slot_set(before.bitmap@, s) && (s - before.highest - 1) % 1024 >= counter
                - before.highest),
    ensures
        after@ == before@.tried(counter),
{
    let h = before.highest as int;
    assert forall|c: int| after@.seen.contains(c) <==> before@.tried(counter).seen.contains(c) by {
        if 0 <= c <= counter < c + 1024 {
            let s = c % 1024;
            assert(slot_set(after.bitmap@, s) <==> s == counter % 1024 || slot_set(
                before.bitmap@,
                s,
            ) && (s - h - 1) % 1024 >= counter - h);
            assert((s - h - 1) % 1024 == (c - h - 1) % 1024);
            assert(s == counter % 1024 <==> c == counter);
        }
    }
    assert(after@.seen =~= before@.tried(counter).seen);
}

/// A counter below the highest.
proof fn lemma_filled(before: ReplayWindow, after: ReplayWindow, counter: u64)
    requires
        before.initialized,
        before.wf(),
        after.initialized,
        after.highest == before.highest,
        counter <= before.highest < counter + 1024,
        forall|s: int|
            0 <= s < 1024 ==> (#[trigger] slot_set(after.bitmap@, s) <==> s == counter % 1024
                || slot_set(before.bitmap@, s)),
    ensures
        after@ == before@.tried(counter),
        before@.accepts(counter) <==> !slot_set(before.bitmap@, (counter % 1024) as int),
{
    assert forall|c: int| after@.seen.contains(c) <==> before@.tried(counter).seen.contains(c) by {
        if 0 <= c <= before.highest < c + 1024 {
            let s = c % 1024;
            assert(slot_set(after.bitmap@, s) <==> s == counter % 1024 || slot_set(
                before.bitmap@,
                s,
            ));
            assert(s == counter % 1024 <==> c == counter);
        }
    }
    assert(after@.seen =~= before@.tried(counter).seen);
}

/// Which slots are set once one of them was set.
proof fn lemma_slots_set(before: Seq<u64>, after: Seq<u64>, at: int)
    requires
        0 <= at < 1024,
        before.len() == 16,
        after == before.update(at / 64, before[at / 64] | (1u64 << ((at % 64) as u64))),
    ensures
        forall|s: int|
            0 <= s < 1024 ==> (#[trigger] slot_set(after, s) <==> s == at || slot_set(before, s)),
{
    assert forall|s: int| 0 <= s < 1024 implies (#[trigger] slot_set(after, s) <==> s == at
        || slot_set(before, s)) by {
        lemma_set_bit(before[at / 64], (at % 64) as u64, (s % 64) as u64);
    }
}

/// Which slots are set once one of them was cleared.
proof fn lemma_slots_cleared(before: Seq<u64>, after: Seq<u64>, at: int)
    requires
        0 <= at < 1024,
        before.len() == 16,
        after == before.update(at / 64, before[at / 64] & !(1u64 << ((at % 64) as u64))),
    ensures
        forall|s: int|
            0 <= s < 1024 ==> (#[trigger] slot_set(after, s) <==> s != at && slot_set(before, s)),
{
    assert forall|s: int| 0 <= s < 1024 implies (#[trigger] slot_set(after, s) <==> s != at
        && slot_set(before, s)) by {
        lemma_clear_bit(before[at / 64], (at % 64) as u64, (s % 64) as u64);
    }
}

} // verus!
