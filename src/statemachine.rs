//! Keeps track of the state of the JTAG TAP controllers and moves them to any requested state
//! along a shortest path of the IEEE 1149.1 state graph.
use vstd::prelude::*;

use crate::cable::{tap_after, tap_run, Cable, CableOp};

verus! {

/// The two registers of a TAP that can be shifted.
#[derive(Clone, Copy, PartialEq, Eq, Structural, Debug)]
pub enum Register {
    Data,
    Instruction,
}

/// The sixteen states of a TAP controller.
#[derive(Clone, Copy, PartialEq, Eq, Structural, Debug)]
pub enum JtagState {
    Reset,
    Idle,
    SelectDR,
    CaptureDR,
    ShiftDR,
    Exit1DR,
    PauseDR,
    Exit2DR,
    UpdateDR,
    SelectIR,
    CaptureIR,
    ShiftIR,
    Exit1IR,
    PauseIR,
    Exit2IR,
    UpdateIR,
}

/// The state a TAP controller moves to from `s` on one clock with TMS at `tms`.
pub open spec fn next(s: JtagState, tms: bool) -> JtagState {
    match s {
        JtagState::Reset => if tms { JtagState::Reset } else { JtagState::Idle },
        JtagState::Idle => if tms { JtagState::SelectDR } else { JtagState::Idle },
        JtagState::SelectDR => if tms { JtagState::SelectIR } else { JtagState::CaptureDR },
        JtagState::CaptureDR => if tms { JtagState::Exit1DR } else { JtagState::ShiftDR },
        JtagState::ShiftDR => if tms { JtagState::Exit1DR } else { JtagState::ShiftDR },
        JtagState::Exit1DR => if tms { JtagState::UpdateDR } else { JtagState::PauseDR },
        JtagState::PauseDR => if tms { JtagState::Exit2DR } else { JtagState::PauseDR },
        JtagState::Exit2DR => if tms { JtagState::UpdateDR } else { JtagState::ShiftDR },
        JtagState::UpdateDR => if tms { JtagState::SelectDR } else { JtagState::Idle },
        JtagState::SelectIR => if tms { JtagState::Reset } else { JtagState::CaptureIR },
        JtagState::CaptureIR => if tms { JtagState::Exit1IR } else { JtagState::ShiftIR },
        JtagState::ShiftIR => if tms { JtagState::Exit1IR } else { JtagState::ShiftIR },
        JtagState::Exit1IR => if tms { JtagState::UpdateIR } else { JtagState::PauseIR },
        JtagState::PauseIR => if tms { JtagState::Exit2IR } else { JtagState::PauseIR },
        JtagState::Exit2IR => if tms { JtagState::UpdateIR } else { JtagState::ShiftIR },
        JtagState::UpdateIR => if tms { JtagState::SelectDR } else { JtagState::Idle },
    }
}

/// The state reached from `s` by clocking the TMS values of `tms` (non-zero is high).
pub open spec fn run(s: JtagState, tms: Seq<usize>) -> JtagState
    decreases tms.len(),
{
    if tms.len() == 0 {
        s
    } else {
        next(run(s, tms.drop_last()), tms.last() != 0)
    }
}

/// 2 to the power `k`.
pub open spec fn two_pow(k: nat) -> nat
    decreases k,
{
    if k == 0 {
        1
    } else {
        2 * two_pow((k - 1) as nat)
    }
}

/// The TMS sequence of length `k` whose bits, first bit most significant, spell `v`.
pub open spec fn bits_path(v: nat, k: nat) -> Seq<usize>
    decreases k,
{
    if k == 0 {
        Seq::empty()
    } else {
        bits_path(v / 2, (k - 1) as nat).push((v % 2) as usize)
    }
}

/// The number that a TMS sequence spells, first bit most significant.
pub open spec fn path_value(p: Seq<usize>) -> nat
    decreases p.len(),
{
    if p.len() == 0 {
        0
    } else {
        2 * path_value(p.drop_last()) + if p.last() != 0 {
            1nat
        } else {
            0nat
        }
    }
}

/// `p` leads from `s` to `t`, and no TMS sequence that does so is shorter.
pub open spec fn is_shortest(s: JtagState, t: JtagState, p: Seq<usize>) -> bool {
    &&& run(s, p) == t
    &&& forall|q: Seq<usize>| run(s, q) == t ==> p.len() <= q.len()
}

/// `p` is a shortest TMS sequence from `s` to `t`, made of zeros and ones, and the first such
/// one in lexicographic order (a zero before a one).
pub open spec fn is_first_shortest(s: JtagState, t: JtagState, p: Seq<usize>) -> bool {
    &&& is_shortest(s, t, p)
    &&& p == bits_path(path_value(p), p.len())
    &&& forall|w: nat| w < path_value(p) ==> run(s, bits_path(w, p.len())) != t
}

/// The TMS sequence that the driver clocks to move from `s` to `t`.
pub open spec fn tms_path(s: JtagState, t: JtagState) -> Seq<usize> {
    choose|p: Seq<usize>| is_first_shortest(s, t, p)
}

/// The operations that the driver performs to move from `s` to `t`.
pub open spec fn moves(s: JtagState, t: JtagState) -> Seq<CableOp> {
    if s == t {
        Seq::empty()
    } else {
        seq![CableOp::ChangeMode { tms: tms_path(s, t), tdi: true }]
    }
}

/// The TMS sequence that resets every TAP controller: five ones force Reset, the zero moves on
/// to Idle.
pub open spec fn reset_tms() -> Seq<usize> {
    seq![1usize, 1, 1, 1, 1, 0]
}

/// The shift state of `reg`.
pub open spec fn shift_of(reg: Register) -> JtagState {
    match reg {
        Register::Data => JtagState::ShiftDR,
        Register::Instruction => JtagState::ShiftIR,
    }
}

/// The pause state of `reg`.
pub open spec fn pause_of(reg: Register) -> JtagState {
    match reg {
        Register::Data => JtagState::PauseDR,
        Register::Instruction => JtagState::PauseIR,
    }
}

/// The state the driver records after a shift of `reg` that ends with `pause_after`.
pub open spec fn after_shift(reg: Register, pause_after: bool) -> JtagState {
    if pause_after {
        pause_of(reg)
    } else {
        shift_of(reg)
    }
}

/// The driver's record `recorded` agrees with the TAP's true state `tap`. Right after a reset
/// the driver records Reset while the TAP has moved on to Idle; every path the driver takes from
/// Reset leads to the same state from Idle.
pub open spec fn agrees(recorded: JtagState, tap: JtagState) -> bool {
    recorded == tap || (recorded == JtagState::Reset && tap == JtagState::Idle)
}

pub proof fn lemma_run_push(s: JtagState, p: Seq<usize>, x: usize)
    ensures
        run(s, p.push(x)) == next(run(s, p), x != 0),
{
    assert(p.push(x).drop_last() =~= p);
}

pub proof fn lemma_run_append(s: JtagState, a: Seq<usize>, b: Seq<usize>)
    ensures
        run(s, a + b) == run(run(s, a), b),
    decreases b.len(),
{
    if b.len() == 0 {
        assert(a + b =~= a);
    } else {
        lemma_run_append(s, a, b.drop_last());
        assert((a + b).drop_last() =~= a + b.drop_last());
    }
}

proof fn lemma_value_of_bits(v: nat, k: nat)
    requires
        v < two_pow(k),
    ensures
        path_value(bits_path(v, k)) == v,
        bits_path(v, k).len() == k,
    decreases k,
{
    if k > 0 {
        lemma_value_of_bits(v / 2, (k - 1) as nat);
        assert(bits_path(v, k).drop_last() =~= bits_path(v / 2, (k - 1) as nat));
    }
}

proof fn lemma_bits_of_value(s: JtagState, q: Seq<usize>)
    ensures
        path_value(q) < two_pow(q.len()),
        run(s, bits_path(path_value(q), q.len())) == run(s, q),
    decreases q.len(),
{
    if q.len() > 0 {
        let d = q.drop_last();
        lemma_bits_of_value(s, d);
        let v = path_value(q);
        assert(v / 2 == path_value(d));
        assert(bits_path(v, q.len()) == bits_path(path_value(d), d.len()).push((v % 2) as usize));
        lemma_run_push(s, bits_path(path_value(d), d.len()), (v % 2) as usize);
    }
}

proof fn lemma_two_pow_mono(a: nat, b: nat)
    requires
        a <= b,
    ensures
        two_pow(a) <= two_pow(b),
    decreases b,
{
    if a < b {
        lemma_two_pow_mono(a, (b - 1) as nat);
    }
}

/// Five ones lead from any state to Reset.
proof fn lemma_ones_reset(s: JtagState) -> (p: Seq<usize>)
    ensures
        p.len() == 5,
        run(s, p) == JtagState::Reset,
{
    let e = Seq::<usize>::empty();
    let w1 = e.push(1);
    let w2 = w1.push(1);
    let w3 = w2.push(1);
    let w4 = w3.push(1);
    let w5 = w4.push(1);
    lemma_run_push(s, e, 1);
    lemma_run_push(s, w1, 1);
    lemma_run_push(s, w2, 1);
    lemma_run_push(s, w3, 1);
    lemma_run_push(s, w4, 1);
    w5
}

/// Every state is reached from Reset in at most seven clocks.
proof fn lemma_from_reset(t: JtagState) -> (p: Seq<usize>)
    ensures
        p.len() <= 7,
        run(JtagState::Reset, p) == t,
{
    let r = JtagState::Reset;
    let q0 = Seq::<usize>::empty();
    let q1 = q0.push(0);
    let q2 = q1.push(1);
    let q3 = q2.push(0);
    let q4 = q3.push(0);
    let q5 = q3.push(1);
    let q6 = q5.push(0);
    let q7 = q6.push(1);
    let q8 = q5.push(1);
    let q9 = q2.push(1);
    let q10 = q9.push(0);
    let q11 = q10.push(0);
    let q12 = q10.push(1);
    let q13 = q12.push(0);
    let q14 = q13.push(1);
    let q15 = q12.push(1);
    lemma_run_push(r, q0, 0);
    lemma_run_push(r, q1, 1);
    lemma_run_push(r, q2, 0);
    lemma_run_push(r, q3, 0);
    lemma_run_push(r, q3, 1);
    lemma_run_push(r, q5, 0);
    lemma_run_push(r, q6, 1);
    lemma_run_push(r, q5, 1);
    lemma_run_push(r, q2, 1);
    lemma_run_push(r, q9, 0);
    lemma_run_push(r, q10, 0);
    lemma_run_push(r, q10, 1);
    lemma_run_push(r, q12, 0);
    lemma_run_push(r, q13, 1);
    lemma_run_push(r, q12, 1);
    match t {
        JtagState::Reset => q0,
        JtagState::Idle => q1,
        JtagState::SelectDR => q2,
        JtagState::CaptureDR => q3,
        JtagState::ShiftDR => q4,
        JtagState::Exit1DR => q5,
        JtagState::PauseDR => q6,
        JtagState::Exit2DR => q7,
        JtagState::UpdateDR => q8,
        JtagState::SelectIR => q9,
        JtagState::CaptureIR => q10,
        JtagState::ShiftIR => q11,
        JtagState::Exit1IR => q12,
        JtagState::PauseIR => q13,
        JtagState::Exit2IR => q14,
        JtagState::UpdateIR => q15,
    }
}

/// Every state is reached from every state in at most twelve clocks.
proof fn lemma_reachable(s: JtagState, t: JtagState) -> (p: Seq<usize>)
    ensures
        p.len() <= 12,
        run(s, p) == t,
{
    let a = lemma_ones_reset(s);
    let b = lemma_from_reset(t);
    lemma_run_append(s, a, b);
    a + b
}

/// There is one first shortest path between two states.
proof fn lemma_first_shortest_unique(s: JtagState, t: JtagState, p: Seq<usize>, q: Seq<usize>)
    requires
        is_first_shortest(s, t, p),
        is_first_shortest(s, t, q),
    ensures
        p == q,
{
    assert(p.len() == q.len());
    let vp = path_value(p);
    let vq = path_value(q);
    if vp < vq {
        assert(run(s, bits_path(vp, q.len())) != t);
    } else if vq < vp {
        assert(run(s, bits_path(vq, p.len())) != t);
    }
}

/// A first shortest path from `s` to `t` is the one that `tms_path` names.
proof fn lemma_tms_path_is(s: JtagState, t: JtagState, p: Seq<usize>)
    requires
        is_first_shortest(s, t, p),
    ensures
        tms_path(s, t) == p,
{
    let q = tms_path(s, t);
    lemma_first_shortest_unique(s, t, p, q);
}

/// A shortest path from Reset to another state starts with a zero, so it leads to the same
/// state from Idle.
proof fn lemma_path_from_idle(t: JtagState, p: Seq<usize>)
    requires
        t != JtagState::Reset,
        is_shortest(JtagState::Reset, t, p),
    ensures
        run(JtagState::Idle, p) == t,
{
    let r = JtagState::Reset;
    assert(p.len() > 0);
    let head = p.take(1);
    let rest = p.skip(1);
    assert(p =~= head + rest);
    lemma_run_append(r, head, rest);
    lemma_run_append(JtagState::Idle, head, rest);
    assert(head.drop_last() =~= Seq::<usize>::empty());
    assert(head.len() == 1 && head.last() == p[0]);
    assert(run(r, head.drop_last()) == r);
    assert(run(JtagState::Idle, head.drop_last()) == JtagState::Idle);
    if p[0] != 0 {
        assert(run(r, head) == r);
        assert(run(r, rest) == t);
        assert(p.len() <= rest.len());
    }
}

/// The state that `state` moves to on one clock with TMS at `tms`.
fn next_state(state: JtagState, tms: bool) -> (r: JtagState)
    ensures
        r == next(state, tms),
{
    match state {
        JtagState::Reset => if tms { JtagState::Reset } else { JtagState::Idle },
        JtagState::Idle => if tms { JtagState::SelectDR } else { JtagState::Idle },
        JtagState::SelectDR => if tms { JtagState::SelectIR } else { JtagState::CaptureDR },
        JtagState::CaptureDR => if tms { JtagState::Exit1DR } else { JtagState::ShiftDR },
        JtagState::ShiftDR => if tms { JtagState::Exit1DR } else { JtagState::ShiftDR },
        JtagState::Exit1DR => if tms { JtagState::UpdateDR } else { JtagState::PauseDR },
        JtagState::PauseDR => if tms { JtagState::Exit2DR } else { JtagState::PauseDR },
        JtagState::Exit2DR => if tms { JtagState::UpdateDR } else { JtagState::ShiftDR },
        JtagState::UpdateDR => if tms { JtagState::SelectDR } else { JtagState::Idle },
        JtagState::SelectIR => if tms { JtagState::Reset } else { JtagState::CaptureIR },
        JtagState::CaptureIR => if tms { JtagState::Exit1IR } else { JtagState::ShiftIR },
        JtagState::ShiftIR => if tms { JtagState::Exit1IR } else { JtagState::ShiftIR },
        JtagState::Exit1IR => if tms { JtagState::UpdateIR } else { JtagState::PauseIR },
        JtagState::PauseIR => if tms { JtagState::Exit2IR } else { JtagState::PauseIR },
        JtagState::Exit2IR => if tms { JtagState::UpdateIR } else { JtagState::ShiftIR },
        JtagState::UpdateIR => if tms { JtagState::SelectDR } else { JtagState::Idle },
    }
}

/// The TMS sequence of length `k` that spells `v`, first bit most significant.
fn path_of(v: u32, k: usize) -> (r: Vec<usize>)
    ensures
        r@ == bits_path(v as nat, k as nat),
    decreases k,
{
    if k == 0 {
        Vec::new()
    } else {
        let mut r = path_of(v / 2, k - 1);
        r.push((v % 2) as usize);
        r
    }
}

/// The state reached from `state` by clocking `tms`.
fn walk(state: JtagState, tms: &Vec<usize>) -> (r: JtagState)
    ensures
        r == run(state, tms@),
{
    let mut cur = state;
    let mut i: usize = 0;
    while i < tms.len()
        invariant
            i <= tms@.len(),
            cur == run(state, tms@.take(i as int)),
        decreases tms@.len() - i,
    {
        proof {
            assert(tms@.take(i + 1) =~= tms@.take(i as int).push(tms@[i as int]));
            lemma_run_push(state, tms@.take(i as int), tms@[i as int]);
        }
        cur = next_state(cur, tms[i] != 0);
        i += 1;
    }
    assert(tms@.take(i as int) =~= tms@);
    cur
}

/// The first shortest TMS sequence from `from` to `to`: sequences are tried by length, and
/// among those of one length in lexicographic order, a zero before a one.
fn shortest_path(from: JtagState, to: JtagState) -> (r: Vec<usize>)
    ensures
        is_first_shortest(from, to, r@),
{
    let mut k: usize = 0;
    let mut n: u32 = 1;
    while k <= 12
        invariant
            k <= 13,
            n as nat == two_pow(k as nat),
            forall|q: Seq<usize>| q.len() < k ==> run(from, q) != to,
        decreases 13 - k,
    {
        proof {
            lemma_two_pow_mono(k as nat, 12);
            reveal_with_fuel(two_pow, 13);
        }
        let mut v: u32 = 0;
        while v < n
            invariant
                k <= 12,
                n as nat == two_pow(k as nat),
                n <= 4096,
                v <= n,
                forall|q: Seq<usize>| q.len() < k ==> run(from, q) != to,
                forall|w: nat| w < v ==> run(from, bits_path(w, k as nat)) != to,
            decreases n - v,
        {
            let p = path_of(v, k);
            if walk(from, &p) == to {
                proof {
                    lemma_value_of_bits(v as nat, k as nat);
                    assert forall|q: Seq<usize>| run(from, q) == to implies p@.len() <= q.len() by {
                        if q.len() < k {
                        }
                    }
                }
                return p;
            }
            v += 1;
        }
        proof {
            assert forall|q: Seq<usize>| q.len() < k + 1 implies run(from, q) != to by {
                if q.len() == k {
                    lemma_bits_of_value(from, q);
                }
            }
        }
        k += 1;
        n = n * 2;
    }
    proof {
        let q = lemma_reachable(from, to);
        assert(run(from, q) != to);
    }
    Vec::new()
}

/// A JTAG driver: owns a cable and the state of the TAP controllers on its chain.
pub struct JtagSM<C> {
    pub cable: C,
    state: JtagState,
    /// Where in the cable's trace the driver last reset the chain.
    mark: Ghost<int>,
}

impl<C: Cable> JtagSM<C> {
    /// Every operation performed on the driver's cable.
    pub closed spec fn trace(&self) -> Seq<CableOp> {
        self.cable.trace()
    }

    /// The state the driver has recorded for the TAP controllers.
    pub closed spec fn recorded(&self) -> JtagState {
        self.state
    }

    /// The state the TAP controllers are in after the operations performed on the cable since
    /// the driver last reset the chain.
    pub closed spec fn tap_state(&self) -> JtagState {
        tap_run(
            JtagState::Reset,
            self.cable.trace().subrange(self.mark@, self.cable.trace().len() as int),
        )
    }

    /// The driver's invariant: its record agrees with the state of the TAP controllers.
    pub closed spec fn wf(&self) -> bool {
        &&& 0 <= self.mark@ <= self.cable.trace().len()
        &&& agrees(self.state, self.tap_state())
    }

    proof fn lemma_tap_after(self, op: CableOp, trace: Seq<CableOp>)
        requires
            0 <= self.mark@ <= self.cable.trace().len(),
            trace == self.cable.trace().push(op),
        ensures
            tap_run(JtagState::Reset, trace.subrange(self.mark@, trace.len() as int)) == tap_after(
                self.tap_state(),
                op,
            ),
    {
        let old_t = self.cable.trace();
        assert(trace.subrange(self.mark@, trace.len() as int).drop_last() =~= old_t.subrange(
            self.mark@,
            old_t.len() as int,
        ));
    }

    /// Create a driver over `cable`; resets the chain.
    pub fn new(cable: C) -> (r: Self)
        ensures
            r.wf(),
            r.recorded() == JtagState::Reset,
            r.trace() == cable.trace().push(
                CableOp::ChangeMode { tms: reset_tms(), tdi: true },
            ),
    {
        let mut cable = cable;
        let ghost start = cable.trace().len() as int;
        let tms: [usize; 6] = [1, 1, 1, 1, 1, 0];
        cable.change_mode(&tms, true);
        let r = JtagSM { cable, state: JtagState::Reset, mark: Ghost(start) };
        proof {
            assert(tms@ =~= reset_tms());
            lemma_reset_to_idle();
            lemma_tap_run_single(CableOp::ChangeMode { tms: reset_tms(), tdi: true });
            assert(r.cable.trace().subrange(start, r.cable.trace().len() as int) =~= seq![
                CableOp::ChangeMode { tms: reset_tms(), tdi: true },
            ]);
        }
        r
    }

    /// Reset the chain by clocking TMS high five times, then low once.
    pub fn mode_reset(&mut self)
        requires
            old(self).wf(),
        ensures
            final(self).wf(),
            final(self).recorded() == JtagState::Reset,
            final(self).trace() == old(self).trace().push(
                CableOp::ChangeMode { tms: reset_tms(), tdi: true },
            ),
    {
        let ghost start = self.cable.trace().len() as int;
        let tms: [usize; 6] = [1, 1, 1, 1, 1, 0];
        self.cable.change_mode(&tms, true);
        self.state = JtagState::Reset;
        self.mark = Ghost(start);
        proof {
            assert(tms@ =~= reset_tms());
            lemma_reset_to_idle();
            lemma_tap_run_single(CableOp::ChangeMode { tms: reset_tms(), tdi: true });
            assert(self.cable.trace().subrange(start, self.cable.trace().len() as int) =~= seq![
                CableOp::ChangeMode { tms: reset_tms(), tdi: true },
            ]);
        }
    }

    /// The first shortest TMS sequence from the recorded state to `state`.
    fn get_path(&self, state: JtagState) -> (r: Vec<usize>)
        ensures
            is_first_shortest(self.recorded(), state, r@),
    {
        shortest_path(self.state, state)
    }

    /// Move the TAP controllers to `state` along the first shortest path; nothing is clocked
    /// when they are there already.
    pub fn change_mode(&mut self, state: JtagState)
        requires
            old(self).wf(),
        ensures
            final(self).wf(),
            final(self).recorded() == state,
            state != JtagState::Reset ==> final(self).tap_state() == state,
            final(self).trace() == old(self).trace() + moves(
                old(self).recorded(),
                state,
            ),
            old(self).recorded() != state ==> is_first_shortest(
                old(self).recorded(),
                state,
                tms_path(old(self).recorded(), state),
            ),
    {
        if self.state == state {
            assert(old(self).trace() + moves(old(self).recorded(), state) =~= old(
                self,
            ).cable.trace());
            return ;
        }
        let path = self.get_path(state);
        proof {
            lemma_tms_path_is(self.state, state, path@);
            if self.state == JtagState::Reset && self.tap_state() == JtagState::Idle {
                lemma_path_from_idle(state, path@);
            }
        }
        let ghost op = CableOp::ChangeMode { tms: path@, tdi: true };
        let ghost pre = *self;
        self.cable.change_mode(path.as_slice(), true);
        self.state = state;
        proof {
            pre.lemma_tap_after(op, self.cable.trace());
            assert(self.cable.trace() =~= old(self).trace() + moves(
                old(self).recorded(),
                state,
            ));
        }
    }

    /// Move to the shift state of `reg`.
    fn enter_shift(&mut self, reg: Register)
        requires
            old(self).wf(),
        ensures
            final(self).wf(),
            final(self).recorded() == shift_of(reg),
            final(self).tap_state() == shift_of(reg),
            final(self).trace() == old(self).trace() + moves(old(self).recorded(), shift_of(reg)),
    {
        if reg == Register::Data {
            self.change_mode(JtagState::ShiftDR);
        } else {
            self.change_mode(JtagState::ShiftIR);
        }
    }

    /// Read `bits` bits from `reg`; the chain is left in the register's shift state.
    pub fn read_reg(&mut self, reg: Register, bits: usize) -> (r: Vec<u8>)
        requires
            old(self).wf(),
        ensures
            final(self).wf(),
            final(self).recorded() == shift_of(reg),
            final(self).trace() == old(self).trace() + moves(old(self).recorded(), shift_of(reg))
                + seq![CableOp::Read { count: bits as nat, tdo: r@ }],
    {
        self.enter_shift(reg);
        let ghost pre = *self;
        let r = self.cable.read_data(bits);
        proof {
            pre.lemma_tap_after(CableOp::Read { count: bits as nat, tdo: r@ }, self.cable.trace());
            assert(self.trace() =~= old(self).trace() + moves(old(self).recorded(), shift_of(reg))
                + seq![CableOp::Read { count: bits as nat, tdo: r@ }]);
        }
        r
    }

    /// Queue a read of `bits` bits from `reg`; false when the cable's queue is full.
    pub fn queue_read(&mut self, reg: Register, bits: usize) -> (r: bool)
        requires
            old(self).wf(),
        ensures
            final(self).wf(),
            final(self).recorded() == shift_of(reg),
            final(self).trace() == old(self).trace() + moves(old(self).recorded(), shift_of(reg))
                + seq![CableOp::QueueRead { count: bits as nat, accepted: r }],
    {
        self.enter_shift(reg);
        let ghost pre = *self;
        let r = self.cable.queue_read(bits);
        proof {
            pre.lemma_tap_after(CableOp::QueueRead { count: bits as nat, accepted: r }, self.cable.trace());
            assert(self.trace() =~= old(self).trace() + moves(old(self).recorded(), shift_of(reg))
                + seq![CableOp::QueueRead { count: bits as nat, accepted: r }]);
        }
        r
    }

    /// Write `data` into `reg`; `bits` (1 to 8) is how many bits of the last byte are written.
    /// The chain is left in the register's pause state if `pause_after`, else in its shift
    /// state, so that a register can be written by several calls.
    pub fn write_reg(&mut self, reg: Register, data: &[u8], bits: u8, pause_after: bool)
        requires
            old(self).wf(),
            data@.len() > 0,
            1 <= bits <= 8,
        ensures
            final(self).wf(),
            final(self).recorded() == after_shift(reg, pause_after),
            final(self).trace() == old(self).trace() + moves(old(self).recorded(), shift_of(reg))
                + seq![CableOp::Write { data: data@, bits, pause_after }],
    {
        self.enter_shift(reg);
        let ghost pre = *self;
        self.cable.write_data(data, bits, pause_after);
        if pause_after {
            if reg == Register::Data {
                self.state = JtagState::PauseDR;
            } else {
                self.state = JtagState::PauseIR;
            }
        }
        proof {
            pre.lemma_tap_after(CableOp::Write { data: data@, bits, pause_after }, self.cable.trace());
            assert(self.trace() =~= old(self).trace() + moves(old(self).recorded(), shift_of(reg))
                + seq![CableOp::Write { data: data@, bits, pause_after }]);
        }
    }

    /// As `write_reg`, returning the bits shifted out while `data` was shifted in.
    pub fn read_write_reg(&mut self, reg: Register, data: &[u8], bits: u8, pause_after: bool) -> (r: Vec<u8>)
        requires
            old(self).wf(),
            data@.len() > 0,
            1 <= bits <= 8,
        ensures
            final(self).wf(),
            final(self).recorded() == after_shift(reg, pause_after),
            final(self).trace() == old(self).trace() + moves(old(self).recorded(), shift_of(reg))
                + seq![CableOp::ReadWrite { data: data@, bits, pause_after, tdo: r@ }],
    {
        self.enter_shift(reg);
        let ghost pre = *self;
        let r = self.cable.read_write_data(data, bits, pause_after);
        if pause_after {
            if reg == Register::Data {
                self.state = JtagState::PauseDR;
            } else {
                self.state = JtagState::PauseIR;
            }
        }
        proof {
            pre.lemma_tap_after(CableOp::ReadWrite { data: data@, bits, pause_after, tdo: r@ }, self.cable.trace());
            assert(self.trace() =~= old(self).trace() + moves(old(self).recorded(), shift_of(reg))
                + seq![CableOp::ReadWrite { data: data@, bits, pause_after, tdo: r@ }]);
        }
        r
    }

    /// Queue a read-write of `reg` (see `read_write_reg`); false when the cable's queue is
    /// full, in which case nothing was shifted and the chain stays in the shift state.
    pub fn queue_read_write(&mut self, reg: Register, data: &[u8], bits: u8, pause_after: bool) -> (r: bool)
        requires
            old(self).wf(),
            data@.len() > 0,
            1 <= bits <= 8,
        ensures
            final(self).wf(),
            final(self).recorded() == after_shift(reg, pause_after && r),
            final(self).trace() == old(self).trace() + moves(old(self).recorded(), shift_of(reg))
                + seq![CableOp::QueueReadWrite { data: data@, bits, pause_after, accepted: r }],
    {
        self.enter_shift(reg);
        let ghost pre = *self;
        let r = self.cable.queue_read_write(data, bits, pause_after);
        if pause_after && r {
            if reg == Register::Data {
                self.state = JtagState::PauseDR;
            } else {
                self.state = JtagState::PauseIR;
            }
        }
        proof {
            pre.lemma_tap_after(
                CableOp::QueueReadWrite { data: data@, bits, pause_after, accepted: r },
                self.cable.trace(),
            );
            assert(self.trace() =~= old(self).trace() + moves(old(self).recorded(), shift_of(reg))
                + seq![CableOp::QueueReadWrite { data: data@, bits, pause_after, accepted: r }]);
        }
        r
    }

    /// Collect the result of the oldest queued read, which was of `bits` bits.
    pub fn finish_read(&mut self, bits: usize) -> (r: Vec<u8>)
        requires
            old(self).wf(),
        ensures
            final(self).wf(),
            final(self).recorded() == old(self).recorded(),
            final(self).trace() == old(self).trace().push(
                CableOp::FinishRead { count: bits as nat, tdo: r@ },
            ),
    {
        let ghost pre = *self;
        let r = self.cable.finish_read(bits);
        proof {
            pre.lemma_tap_after(CableOp::FinishRead { count: bits as nat, tdo: r@ }, self.cable.trace());
        }
        r
    }
}

/// Whatever sequence of calls a driver has served, the state it records agrees with the state
/// that the operations performed on its cable since its last reset lead the TAP controllers
/// to: the two are equal, except right after a reset, when the driver records Reset and the
/// controllers stand in Idle.
pub proof fn lemma_recorded_matches_tap<C: Cable>(sm: &JtagSM<C>)
    requires
        sm.wf(),
    ensures
        agrees(sm.recorded(), sm.tap_state()),
{
}

proof fn lemma_tap_run_single(op: CableOp)
    ensures
        tap_run(JtagState::Reset, seq![op]) == tap_after(JtagState::Reset, op),
{
    let e = Seq::<CableOp>::empty();
    assert(seq![op].drop_last() =~= e);
    assert(tap_run(JtagState::Reset, e) == JtagState::Reset);
    assert(seq![op].last() == op);
}

proof fn lemma_reset_to_idle()
    ensures
        run(JtagState::Reset, reset_tms()) == JtagState::Idle,
{
    let r = JtagState::Reset;
    let e = Seq::<usize>::empty();
    let w1 = e.push(1);
    let w2 = w1.push(1);
    let w3 = w2.push(1);
    let w4 = w3.push(1);
    let w5 = w4.push(1);
    let w6 = w5.push(0);
    lemma_run_push(r, e, 1);
    lemma_run_push(r, w1, 1);
    lemma_run_push(r, w2, 1);
    lemma_run_push(r, w3, 1);
    lemma_run_push(r, w4, 1);
    lemma_run_push(r, w5, 0);
    assert(w6 =~= reset_tms());
}

} // verus!
