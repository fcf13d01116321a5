use jtag_taps::cable::Cable;
use jtag_taps::statemachine::{JtagSM, JtagState, Register};
use jtag_taps::taps::{IrScan, Taps};
use JtagState::{
    CaptureDR, CaptureIR, Exit1DR, Exit1IR, Exit2DR, Exit2IR, Idle, PauseDR, PauseIR, Reset,
    SelectDR, SelectIR, ShiftDR, ShiftIR, UpdateDR, UpdateIR,
};

#[derive(Clone, Debug, PartialEq)]
enum Op {
    Tms(Vec<usize>, bool),
    Read(usize),
    Write(Vec<u8>, u8, bool),
    ReadWrite(Vec<u8>, u8, bool),
    QueueRead(usize),
    QueueReadWrite(Vec<u8>, u8, bool),
    Finish(usize),
    Flush,
}

/// A cable that records every call and answers reads with a fixed TDO level.
struct Recorder {
    ops: Vec<Op>,
    tdo: u8,
    queue: Vec<Vec<u8>>,
    room: usize,
}

impl Recorder {
    fn new() -> Self {
        Recorder { ops: vec![], tdo: 0, queue: vec![], room: usize::MAX }
    }
}

fn answer(bits: usize, level: u8) -> Vec<u8> {
    vec![level; (bits + 7) / 8]
}

impl Cable for Recorder {
    fn change_mode(&mut self, tms: &[usize], tdo: bool) {
        self.ops.push(Op::Tms(tms.to_vec(), tdo));
    }
    fn read_data(&mut self, bits: usize) -> Vec<u8> {
        self.ops.push(Op::Read(bits));
        answer(bits, self.tdo)
    }
    fn write_data(&mut self, data: &[u8], bits: u8, pause_after: bool) {
        self.ops.push(Op::Write(data.to_vec(), bits, pause_after));
    }
    fn read_write_data(&mut self, data: &[u8], bits: u8, pause_after: bool) -> Vec<u8> {
        self.ops.push(Op::ReadWrite(data.to_vec(), bits, pause_after));
        data.to_vec()
    }
    fn queue_read(&mut self, bits: usize) -> bool {
        if self.room == 0 {
            return false;
        }
        self.room -= 1;
        self.ops.push(Op::QueueRead(bits));
        self.queue.push(answer(bits, self.tdo));
        true
    }
    fn queue_read_write(&mut self, data: &[u8], bits: u8, pause_after: bool) -> bool {
        if self.room == 0 {
            return false;
        }
        self.room -= 1;
        self.ops.push(Op::QueueReadWrite(data.to_vec(), bits, pause_after));
        self.queue.push(data.to_vec());
        true
    }
    fn finish_read(&mut self, bits: usize) -> Vec<u8> {
        self.ops.push(Op::Finish(bits));
        self.queue.remove(0)
    }
    fn flush(&mut self) {
        self.ops.push(Op::Flush);
    }
}

fn next(s: JtagState, tms: bool) -> JtagState {
    match (s, tms) {
        (Reset, false) => Idle,
        (Reset, true) => Reset,
        (Idle, false) => Idle,
        (Idle, true) => SelectDR,
        (SelectDR, false) => CaptureDR,
        (SelectDR, true) => SelectIR,
        (CaptureDR, false) => ShiftDR,
        (CaptureDR, true) => Exit1DR,
        (ShiftDR, false) => ShiftDR,
        (ShiftDR, true) => Exit1DR,
        (Exit1DR, false) => PauseDR,
        (Exit1DR, true) => UpdateDR,
        (PauseDR, false) => PauseDR,
        (PauseDR, true) => Exit2DR,
        (Exit2DR, false) => ShiftDR,
        (Exit2DR, true) => UpdateDR,
        (UpdateDR, false) => Idle,
        (UpdateDR, true) => SelectDR,
        (SelectIR, false) => CaptureIR,
        (SelectIR, true) => Reset,
        (CaptureIR, false) => ShiftIR,
        (CaptureIR, true) => Exit1IR,
        (ShiftIR, false) => ShiftIR,
        (ShiftIR, true) => Exit1IR,
        (Exit1IR, false) => PauseIR,
        (Exit1IR, true) => UpdateIR,
        (PauseIR, false) => PauseIR,
        (PauseIR, true) => Exit2IR,
        (Exit2IR, false) => ShiftIR,
        (Exit2IR, true) => UpdateIR,
        (UpdateIR, false) => Idle,
        (UpdateIR, true) => SelectDR,
    }
}

const ALL: [JtagState; 16] = [
    JtagState::Reset,
    JtagState::Idle,
    JtagState::SelectDR,
    JtagState::CaptureDR,
    JtagState::ShiftDR,
    JtagState::Exit1DR,
    JtagState::PauseDR,
    JtagState::Exit2DR,
    JtagState::UpdateDR,
    JtagState::SelectIR,
    JtagState::CaptureIR,
    JtagState::ShiftIR,
    JtagState::Exit1IR,
    JtagState::PauseIR,
    JtagState::Exit2IR,
    JtagState::UpdateIR,
];

fn distance(from: JtagState, to: JtagState) -> usize {
    let mut frontier = vec![from];
    let mut d = 0;
    while !frontier.contains(&to) {
        let mut n = vec![];
        for s in frontier {
            n.push(next(s, false));
            n.push(next(s, true));
        }
        frontier = n;
        d += 1;
    }
    d
}

fn apply(mut s: JtagState, tms: &[usize]) -> JtagState {
    for x in tms {
        s = next(s, *x != 0);
    }
    s
}

/// The driver, moved to `state` with the calls made so far forgotten.
fn driver_at(state: JtagState) -> JtagSM<Recorder> {
    let mut sm = JtagSM::new(Recorder::new());
    sm.change_mode(state);
    sm.cable.ops.clear();
    sm
}

/// The TDI bits of the writes in `ops`, first clocked first.
fn written_bits(ops: &[Op]) -> Vec<u8> {
    let mut out = vec![];
    for op in ops {
        if let Op::Write(d, bits, _) = op {
            for (i, byte) in d.iter().enumerate() {
                let n = if i + 1 == d.len() { *bits as usize } else { 8 };
                for j in 0..n {
                    out.push((byte >> j) & 1);
                }
            }
        }
    }
    out
}

#[test]
fn new_resets_the_chain() {
    let sm = JtagSM::new(Recorder::new());
    assert_eq!(sm.cable.ops, vec![Op::Tms(vec![1, 1, 1, 1, 1, 0], true)]);
}

#[test]
fn reset_to_pause_dr() {
    let mut sm = driver_at(JtagState::Reset);
    sm.change_mode(JtagState::PauseDR);
    assert_eq!(sm.cable.ops, vec![Op::Tms(vec![0, 1, 0, 1, 0], true)]);
}

#[test]
fn shift_dr_to_shift_ir() {
    let mut sm = driver_at(JtagState::ShiftDR);
    sm.change_mode(JtagState::ShiftIR);
    assert_eq!(sm.cable.ops, vec![Op::Tms(vec![1, 1, 1, 1, 0, 0], true)]);
}

#[test]
fn every_path_is_shortest() {
    for s in ALL {
        for t in ALL {
            let mut sm = driver_at(s);
            sm.change_mode(t);
            if s == t {
                assert!(sm.cable.ops.is_empty());
                continue;
            }
            match &sm.cable.ops[..] {
                [Op::Tms(tms, true)] => {
                    assert_eq!(apply(s, tms), t);
                    assert_eq!(tms.len(), distance(s, t));
                }
                other => panic!("unexpected calls {:?}", other),
            }
        }
    }
}

#[test]
fn one_step_paths() {
    let mut sm = driver_at(JtagState::Idle);
    sm.change_mode(JtagState::SelectDR);
    assert_eq!(sm.cable.ops, vec![Op::Tms(vec![1], true)]);
}

#[test]
fn recorded_state_follows_calls() {
    let mut sm = driver_at(JtagState::Idle);
    let mut tap = JtagState::Idle;
    let targets = [
        JtagState::ShiftIR,
        JtagState::Exit2DR,
        JtagState::Reset,
        JtagState::UpdateIR,
        JtagState::PauseDR,
        JtagState::Idle,
        JtagState::SelectIR,
    ];
    for t in targets {
        let before = sm.cable.ops.len();
        sm.change_mode(t);
        for op in &sm.cable.ops[before..] {
            if let Op::Tms(tms, _) = op {
                tap = apply(tap, tms);
            }
        }
        assert_eq!(tap, t);
    }
}

#[test]
fn read_reg_enters_shift_state() {
    let mut sm = driver_at(JtagState::Idle);
    let r = sm.read_reg(Register::Data, 12);
    assert_eq!(r.len(), 2);
    assert_eq!(sm.cable.ops, vec![Op::Tms(vec![1, 0, 0], true), Op::Read(12)]);
}

#[test]
fn write_reg_with_pause() {
    let mut sm = driver_at(JtagState::Idle);
    sm.write_reg(Register::Instruction, &[0xab], 4, true);
    sm.change_mode(JtagState::Idle);
    assert_eq!(
        sm.cable.ops,
        vec![
            Op::Tms(vec![1, 1, 0, 0], true),
            Op::Write(vec![0xab], 4, true),
            Op::Tms(vec![1, 1, 0], true),
        ]
    );
}

#[test]
fn queue_read_write_rejected_keeps_shift_state() {
    let mut sm = driver_at(JtagState::Idle);
    sm.cable.room = 0;
    assert!(!sm.queue_read_write(Register::Data, &[1], 1, true));
    sm.change_mode(JtagState::ShiftDR);
    assert_eq!(sm.cable.ops, vec![Op::Tms(vec![1, 0, 0], true)]);
}

fn chain(lens: &[usize]) -> Taps<Recorder> {
    let sm = JtagSM::new(Recorder::new());
    let mut taps = Taps::new(sm);
    for l in lens {
        taps.add_tap(*l);
    }
    taps
}

#[test]
fn write_ir_first_of_two() {
    let mut taps = chain(&[4, 5]);
    taps.select_tap(0, &[0x0E]);
    let start = taps.sm.cable.ops.iter().position(|o| *o == Op::Tms(vec![1, 1, 1, 1, 1, 0], true));
    assert_eq!(start, Some(0));
    let ops = taps.sm.cable.ops[1..].to_vec();
    assert_eq!(written_bits(&ops), vec![1, 1, 1, 1, 1, 0, 1, 1, 1]);
    taps.sm.cable.ops.clear();
    taps.write_ir(&[0x0E]);
    let ops = taps.sm.cable.ops.clone();
    assert_eq!(written_bits(&ops), vec![1, 1, 1, 1, 1, 0, 1, 1, 1]);
    assert_eq!(ops.last(), Some(&Op::Tms(vec![1, 1, 0], true)));
}

#[test]
fn select_second_of_two() {
    let mut taps = chain(&[4, 5]);
    taps.sm.cable.ops.clear();
    taps.select_tap(1, &[0x1F]);
    let ops = taps.sm.cable.ops.clone();
    assert_eq!(ops[0], Op::Tms(vec![1, 1, 1, 1, 1, 0], true));
    assert_eq!(written_bits(&ops), vec![1; 9]);
    assert_eq!(ops[2], Op::Write(vec![0xff, 0xff], 1, true));
    assert_eq!(ops[3], Op::Tms(vec![1, 1, 0], true));
}

#[test]
fn padding_in_a_longer_chain() {
    let lens = [3, 7, 6, 10];
    for k in 0..lens.len() {
        let mut taps = chain(&lens);
        let ir: Vec<u8> = if lens[k] > 8 { vec![0x5a, 0x02] } else { vec![0x15] };
        taps.select_tap(k, &ir);
        let after: usize = lens[k + 1..].iter().sum();
        let before: usize = lens[..k].iter().sum();
        let mut want = vec![1; after];
        for i in 0..lens[k] {
            want.push((ir[i / 8] >> (i % 8)) & 1);
        }
        want.extend(vec![1; before]);
        assert_eq!(written_bits(&taps.sm.cable.ops), want);
    }
}

#[test]
fn write_ir_of_eight_bits_keeps_payload() {
    let mut taps = chain(&[8]);
    taps.select_tap(0, &[0x0E]);
    assert_eq!(written_bits(&taps.sm.cable.ops), vec![0, 1, 1, 1, 0, 0, 0, 0]);
}

#[test]
fn read_ir_drops_bits_after() {
    let mut taps = chain(&[4, 5, 3]);
    taps.select_tap(1, &[0x01]);
    taps.sm.cable.ops.clear();
    let r = taps.read_ir();
    assert_eq!(r.len(), 1);
    assert_eq!(
        taps.sm.cable.ops,
        vec![Op::Tms(vec![1, 1, 0, 0], true), Op::Read(3), Op::Read(5)]
    );
}

#[test]
fn write_dr_pads_one_bit_per_tap_before() {
    let mut taps = chain(&[4, 5, 3]);
    taps.select_tap(2, &[0x01]);
    taps.sm.cable.ops.clear();
    taps.write_dr(&[0xaa, 0x05], 3);
    assert_eq!(
        written_bits(&taps.sm.cable.ops),
        vec![0, 1, 0, 1, 0, 1, 0, 1, 1, 0, 1, 1, 1]
    );
    assert_eq!(taps.sm.cable.ops[1], Op::Write(vec![0xaa, 0xfd], 5, true));
}

#[test]
fn read_write_dr_drops_bypass_bits() {
    let mut taps = chain(&[4, 5, 3]);
    taps.select_tap(0, &[0x01]);
    taps.sm.cable.ops.clear();
    let r = taps.read_write_dr(&[0x3c], 8);
    assert_eq!(r, vec![0x3c]);
    assert_eq!(
        taps.sm.cable.ops,
        vec![
            Op::Tms(vec![1, 0, 0], true),
            Op::Read(2),
            Op::ReadWrite(vec![0x3c], 8, true),
            Op::Tms(vec![1, 1, 0], true),
        ]
    );
}

#[test]
fn read_dr_after_bypass() {
    let mut taps = chain(&[4, 5]);
    taps.select_tap(0, &[0x01]);
    taps.sm.cable.ops.clear();
    taps.sm.cable.tdo = 0xff;
    let r = taps.read_dr(32);
    assert_eq!(r, vec![0xff; 4]);
    assert_eq!(
        taps.sm.cable.ops,
        vec![Op::Tms(vec![1, 0, 0], true), Op::Read(1), Op::Read(32)]
    );
}

#[test]
fn queued_dr_reads_match_direct_reads() {
    let mut taps = chain(&[4, 5, 6]);
    taps.select_tap(1, &[0x01]);
    taps.sm.cable.tdo = 0x5a;
    assert!(taps.queue_dr_read(16));
    assert!(taps.queue_dr_read(16));
    let a = taps.finish_dr_read(16);
    let b = taps.finish_dr_read(16);
    let direct = taps.read_dr(17);
    assert_eq!(a, direct);
    assert_eq!(b, direct);
}

#[test]
fn dangling_bypass_read_is_collected() {
    let mut taps = chain(&[4, 5]);
    taps.select_tap(0, &[0x01]);
    assert!(taps.queue_dr_read(8));
    taps.sm.cable.room = 1;
    assert!(!taps.queue_dr_read(8));
    taps.sm.cable.ops.clear();
    taps.finish_dr_read(8);
    assert_eq!(taps.sm.cable.ops, vec![Op::Finish(1), Op::Finish(8), Op::Finish(1)]);
    assert!(taps.sm.cable.queue.is_empty());
}

#[test]
fn add_ones_to_end_sets_bits_above_payload() {
    assert_eq!(jtag_taps::taps::add_ones_to_end(&[0x0E], 4, 0), vec![0xfe]);
    assert_eq!(jtag_taps::taps::add_ones_to_end(&[0x0E], 4, 4), vec![0xfe]);
    assert_eq!(jtag_taps::taps::add_ones_to_end(&[0x1F], 5, 4), vec![0xff, 0xff]);
    assert_eq!(jtag_taps::taps::add_ones_to_end(&[0x12, 0x34], 16, 9), vec![0x12, 0x34, 0xff, 0xff]);
}

/// A chain whose data registers form one shift register: the addressed TAP's register of
/// `len` bits and one BYPASS bit for each other TAP. Position 0 is the TDO end.
struct Loopback {
    reg: Vec<bool>,
}

impl Loopback {
    fn shift(&mut self, tdi: &[bool]) -> Vec<u8> {
        let mut out = vec![0u8; (tdi.len() + 7) / 8];
        for (i, b) in tdi.iter().enumerate() {
            let o = self.reg.remove(0);
            self.reg.push(*b);
            if o {
                out[i / 8] |= 1 << (i % 8);
            }
        }
        out
    }
}

fn bits_of(data: &[u8], bits: u8) -> Vec<bool> {
    let n = (data.len() - 1) * 8 + bits as usize;
    (0..n).map(|i| (data[i / 8] >> (i % 8)) & 1 == 1).collect()
}

impl Cable for Loopback {
    fn change_mode(&mut self, _tms: &[usize], _tdo: bool) {}
    fn read_data(&mut self, bits: usize) -> Vec<u8> {
        self.shift(&vec![true; bits])
    }
    fn write_data(&mut self, data: &[u8], bits: u8, _pause_after: bool) {
        self.shift(&bits_of(data, bits));
    }
    fn read_write_data(&mut self, data: &[u8], bits: u8, _pause_after: bool) -> Vec<u8> {
        self.shift(&bits_of(data, bits))
    }
    fn queue_read(&mut self, _bits: usize) -> bool {
        false
    }
    fn queue_read_write(&mut self, _data: &[u8], _bits: u8, _pause_after: bool) -> bool {
        false
    }
    fn finish_read(&mut self, _bits: usize) -> Vec<u8> {
        vec![]
    }
    fn flush(&mut self) {}
}

#[test]
fn read_write_dr_round_trip() {
    let lens = [4, 5, 3, 6];
    let payloads: [(&[u8], usize); 3] = [(&[0x5a, 0x02], 2), (&[0xc3], 5), (&[0x81, 0x7e, 0x01], 1)];
    for k in 0..lens.len() {
        for (dr, bits) in payloads {
            let len = (dr.len() - 1) * 8 + bits;
            let cable = Loopback { reg: vec![false; len + lens.len() - 1] };
            let mut taps = Taps::new(JtagSM::new(cable));
            for l in lens {
                taps.add_tap(l);
            }
            taps.select_tap(k, &[0x01]);
            taps.read_write_dr(dr, bits);
            let back = taps.read_write_dr(&vec![0; dr.len()], bits);
            let got: Vec<bool> = (0..len).map(|i| (back[i / 8] >> (i % 8)) & 1 == 1).collect();
            assert_eq!(got, bits_of(dr, bits as u8), "tap {} payload {:?}", k, dr);
        }
    }
}

/// A cable whose reads are answered from a script.
struct Scripted {
    answers: Vec<Vec<u8>>,
    reads: Vec<usize>,
}

impl Cable for Scripted {
    fn change_mode(&mut self, _tms: &[usize], _tdo: bool) {}
    fn read_data(&mut self, bits: usize) -> Vec<u8> {
        self.reads.push(bits);
        self.answers.remove(0)
    }
    fn write_data(&mut self, _data: &[u8], _bits: u8, _pause_after: bool) {}
    fn read_write_data(&mut self, data: &[u8], _bits: u8, _pause_after: bool) -> Vec<u8> {
        data.to_vec()
    }
    fn queue_read(&mut self, _bits: usize) -> bool {
        false
    }
    fn queue_read_write(&mut self, _data: &[u8], _bits: u8, _pause_after: bool) -> bool {
        false
    }
    fn finish_read(&mut self, _bits: usize) -> Vec<u8> {
        vec![]
    }
    fn flush(&mut self) {}
}

#[test]
fn load_detected_reads_idcodes() {
    let mut scan = IrScan::new();
    for b in [true, false, false, false, true, false, false, false, false, true, true] {
        scan.feed(b);
    }
    let cable = Scripted {
        answers: vec![vec![1], vec![0x37, 0x95, 0xb0, 0x04], vec![0]],
        reads: vec![],
    };
    let mut taps = Taps::new(JtagSM::new(cable));
    let ids = taps.load_detected(&scan);
    assert_eq!(ids, vec![0, 0x0961_2a6f]);
    assert_eq!(taps.sm.cable.reads, vec![1, 31, 1]);
    // the chain is [5, 4]: select the TAP nearest TDI with a 5-bit instruction
    taps.select_tap(0, &[0x1f]);
}
