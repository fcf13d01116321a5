use jtag_taps::bitbang::{half_period_ns, pack_bits, select_bit, write_cycles, Pins, READ_CMD};
use jtag_taps::jlink::{bit_append, vref_ok, JLinkQueue};
use jtag_taps::taps::{idcode_from, IrScan};

#[test]
fn jlink_tap_sequence() {
    let mut q = JLinkQueue::new();
    q.change_mode(&[1, 0, 1], true);
    let out = q.take_output();
    assert_eq!(out, vec![0xCD, 0x03, 0x00, 0b0000_0101, 0b0000_0111]);
    assert_eq!(q.pending_reply(), 1);
}

#[test]
fn jlink_sequences_are_batched() {
    let mut q = JLinkQueue::new();
    q.change_mode(&[1, 1, 0], false);
    q.write_data(&[0xa5, 0x03], 2, false);
    let out = q.take_output();
    // 13 cycles: TMS 1,1,0 then ten data bits with TMS low.
    assert_eq!(out[..3], [0xCD, 13, 0]);
    assert_eq!(out[3..5], [0b0000_0011, 0]);
    assert_eq!(out[5..7], [0xa5 << 3, (0xa5 >> 5) | (0x03 << 3)]);
    assert_eq!(q.pending_reply(), 2);
}

#[test]
fn jlink_pause_on_byte_boundary_adds_a_cycle() {
    let mut q = JLinkQueue::new();
    assert!(q.queue_read_write(&[0x0f], 8, true));
    let out = q.take_output();
    // 8 data cycles, the last with TMS high, then one more cycle with TMS low and TDI high.
    assert_eq!(out, vec![0xCD, 9, 0, 0x80, 0x00, 0x0f, 0x01]);
    q.accept_reply(&[0x5a, 0x01]);
    let r = q.finish_read(8);
    assert_eq!(r, vec![0x5a]);
}

#[test]
fn jlink_reads_are_cut_from_the_reply() {
    let mut q = JLinkQueue::new();
    q.change_mode(&[0, 1, 0], true);
    assert!(q.queue_read(5));
    assert!(q.queue_read(6));
    let out = q.take_output();
    assert_eq!(out[..3], [0xCD, 14, 0]);
    assert_eq!(q.pending_reply(), 2);
    // cycles 0..3 mode change, 3..8 first read, 8..14 second read
    let reply = [0b1010_1000, 0b0011_1110];
    q.accept_reply(&reply);
    assert_eq!(q.finish_read(5), vec![0b10101]);
    assert_eq!(q.finish_read(6), vec![0b111110]);
}

#[test]
fn jlink_queued_equals_direct() {
    let data = [0x3c, 0x05];
    let reply = [0x12, 0x34];
    let mut direct = JLinkQueue::new();
    direct.queue_read_write(&data, 3, false);
    direct.take_output();
    direct.accept_reply(&reply);
    let a = direct.finish_read(11);
    let mut queued = JLinkQueue::new();
    queued.queue_read_write(&data, 3, false);
    queued.queue_read(4);
    queued.take_output();
    queued.accept_reply(&reply);
    let b = queued.finish_read(11);
    assert_eq!(a, b);
    assert_eq!(a, vec![0x12, 0x04]);
    assert_eq!(queued.finish_read(4), vec![0x06]);
}

#[test]
fn jlink_commands() {
    let mut q = JLinkQueue::new();
    q.set_clock(4_000_000);
    q.set_interface(0);
    q.deassert_trst();
    q.assert_srst();
    q.deassert_srst();
    q.assert_trst();
    q.get_status();
    assert_eq!(
        q.take_output(),
        vec![0x05, 0xa0, 0x0f, 0xc7, 0x00, 0xdf, 0xdc, 0xdd, 0xde, 0x07]
    );
    assert_eq!(q.pending_reply(), 12);
    q.accept_reply(&[0, 0, 0, 0, 0xdc, 0x0c, 1, 2, 3, 4, 5, 6]);
    let status = q.take_reply(8);
    assert_eq!(status, vec![0xdc, 0x0c, 1, 2, 3, 4, 5, 6]);
    assert!(vref_ok(&status));
    assert!(!vref_ok(&[0xdb, 0x05]));
    assert!(!vref_ok(&[0xff]));
}

#[test]
fn bit_append_joins_bit_strings() {
    let mut dst = vec![0b101];
    bit_append(&mut dst, 3, &[0xff, 0x01], 9, 2);
    assert_eq!(dst, vec![0b1111_1101, 0b0000_0011]);
    let mut empty = vec![];
    bit_append(&mut empty, 0, &[0xf0], 8, 4);
    assert_eq!(empty, vec![0x0f]);
}

const FT232R: Pins = Pins { tdi: 0, tdo: 3, tms: 1, clk: 2 };

#[test]
fn bitbang_mode_bytes() {
    let out = FT232R.mode_bytes(&[1, 0], true);
    assert_eq!(out, vec![0b1010, 0b1110, 0b1000, 0b1100]);
}

#[test]
fn bitbang_write_with_pause() {
    let out = FT232R.write_bytes(&[0b10], 2, true, false);
    assert_eq!(
        out,
        vec![0b0000, 0b0100, 0b1010, 0b1110, 0b1000, 0b1100]
    );
    let blaster = Pins { tdi: 0, tdo: 4, tms: 1, clk: 0 };
    let out = blaster.read_bytes(2, true);
    assert_eq!(out, vec![0x10, 0x10 | 1 | READ_CMD, 0x10, 0x10 | 1 | READ_CMD]);
}

#[test]
fn bitbang_select_bit() {
    // two bytes per cycle, the sample in the second
    let recv = [0xff, 0x01, 0xff, 0x00, 0x00, 0x01];
    assert_eq!(select_bit(&recv, 0, 2, 3), vec![0b101]);
    // one byte per cycle
    let recv = [1, 1, 0, 1, 0, 0, 0, 0, 1];
    assert_eq!(select_bit(&recv, 0, 1, 9), vec![0b0000_1011, 1]);
    assert_eq!(select_bit(&recv, 0, 1, 4), vec![0b1011]);
}

#[test]
fn detect_capture_pattern() {
    let mut scan = IrScan::new();
    let bits = [false, true, false, false, false, true, true, false, true];
    let mut stopped_at = None;
    for (i, b) in bits.iter().enumerate() {
        if scan.feed(*b) {
            stopped_at = Some(i);
            break;
        }
    }
    assert_eq!(stopped_at, Some(6));
    assert_eq!(scan.lengths(), vec![4]);
}

#[test]
fn detect_two_devices_reversed() {
    let mut scan = IrScan::new();
    for b in [true, false, false, false, true, false, false, false, false, true, true, false] {
        if scan.feed(b) {
            break;
        }
    }
    assert!(scan.is_done());
    assert_eq!(scan.lengths(), vec![5, 4]);
}

#[test]
fn idcode_decoding() {
    assert_eq!(idcode_from(&[0x00, 0x00, 0x00, 0x00]), 1);
    assert_eq!(idcode_from(&[0x37, 0x95, 0xb0, 0x04]), 0x0961_2a6f);
    assert_eq!(idcode_from(&[0x01]), 3);
}

use jtag_taps::mpsse::Mpsse;

#[test]
fn mpsse_tms_commands() {
    let mut m = Mpsse::new();
    assert!(m.change_mode(&[1, 1, 1, 1, 1, 0], true).is_empty());
    assert_eq!(m.take_output(), vec![0x4b, 0x05, 0x9f]);
    m.change_mode(&[1, 1, 1, 1, 1, 1, 1, 1], false);
    assert_eq!(m.take_output(), vec![0x4b, 0x06, 0x7f, 0x4b, 0x00, 0x01]);
    m.change_mode(&[0, 1, 0, 1, 0, 1, 0], false);
    assert_eq!(m.take_output(), vec![0x4b, 0x06, 0x2a]);
}

#[test]
fn mpsse_write_commands() {
    let mut m = Mpsse::new();
    m.write_data(&[0xaa, 0x0f], 4, true);
    assert_eq!(
        m.take_output(),
        vec![0x19, 0x00, 0x00, 0xaa, 0x1b, 0x02, 0x0f, 0x4b, 0x01, 0x81]
    );
    m.write_data(&[0x01], 1, false);
    assert_eq!(m.take_output(), vec![0x4b, 0x00, 0x80]);
}

#[test]
fn mpsse_read_decoding() {
    let mut m = Mpsse::new();
    let (ok, flushed) = m.queue_read(12);
    assert!(ok);
    assert!(flushed.is_empty());
    assert_eq!(m.take_output(), vec![0x39, 0x00, 0x00, 0xff, 0x3b, 0x03, 0xff]);
    assert_eq!(m.reply_len(), 2);
    assert!(m.transfer_needed());
    m.accept_reply(&[0x34, 0xa0]);
    assert!(m.can_finish(12));
    assert!(!m.can_finish(11));
    assert_eq!(m.finish_read(12), vec![0x34, 0x0a]);
}

#[test]
fn mpsse_read_write_with_pause() {
    let mut m = Mpsse::new();
    let (ok, _) = m.queue_read_write(&[0x5a], 3, true);
    assert!(ok);
    assert_eq!(
        m.take_output(),
        vec![0x3b, 0x01, 0x5a, 0x6b, 0x00, 0x01, 0x6b, 0x00, 0x00]
    );
    assert_eq!(m.reply_len(), 3);
    // two samples at the top of the first byte, the last in bit 7, then the pause cycle
    m.accept_reply(&[0b1100_0000, 0x80, 0x80]);
    assert_eq!(m.finish_read(3), vec![0b111]);
}

#[test]
fn mpsse_whole_bytes_with_pause() {
    let mut m = Mpsse::new();
    let (ok, _) = m.queue_read_write(&[0x00, 0x00], 8, true);
    assert!(ok);
    assert_eq!(m.reply_len(), 4);
    m.accept_reply(&[0xc3, 0b0000_0010, 0x80, 0x00]);
    // 16 bits: a whole byte, seven top-aligned samples, then the TMS-clocked last one
    assert_eq!(m.finish_read(16), vec![0xc3, 0x81]);
}

#[test]
fn mpsse_queued_equals_direct() {
    let reply = [0x12, 0b1100_0000, 0x80];
    let mut direct = Mpsse::new();
    direct.queue_read_write(&[0x3c, 0x05], 3, false);
    direct.accept_reply(&reply);
    let a = direct.finish_read(11);
    let mut queued = Mpsse::new();
    queued.change_mode(&[1, 0, 0], true);
    queued.queue_read(4);
    queued.queue_read_write(&[0x3c, 0x05], 3, false);
    queued.accept_reply(&[0xf0]);
    queued.accept_reply(&reply);
    assert_eq!(queued.finish_read(4), vec![0x0f]);
    let b = queued.finish_read(11);
    assert_eq!(a, b);
    assert_eq!(a, vec![0x12, 0x07]);
}

#[test]
fn mpsse_batch_is_handed_back_when_full() {
    let mut m = Mpsse::new();
    let big = vec![0u8; 4000];
    assert!(m.write_data(&big, 8, false).is_empty());
    let flushed = m.write_data(&big, 8, false);
    assert_eq!(flushed.len(), 3 + 3999 + 3 + 3);
    assert_eq!(m.take_output().len(), 3 + 3999 + 3 + 3);
}

#[test]
fn mpsse_reads_refused_past_four_kib() {
    let mut m = Mpsse::new();
    assert!(m.queue_read(8 * 4000).0);
    assert!(!m.queue_read(8 * 100).0);
    assert_eq!(m.reply_len(), 4000);
}

#[test]
fn gpio_cycle_rules() {
    let (tms, tdi) = write_cycles(&[0b1011, 0x00], 1, true);
    assert_eq!(tms.len(), 10);
    assert_eq!(tms, vec![false, false, false, false, false, false, false, false, true, false]);
    assert_eq!(tdi, vec![true, true, false, true, false, false, false, false, false, true]);
    let (tms, tdi) = write_cycles(&[0x80], 8, false);
    assert_eq!(tms, vec![false; 8]);
    assert_eq!(tdi, vec![false, false, false, false, false, false, false, true]);
    assert_eq!(pack_bits(&[true, false, true, true, false, false, false, false, true]), vec![0x0d, 0x01]);
    assert_eq!(pack_bits(&[]), Vec::<u8>::new());
    assert_eq!(half_period_ns(1000), 500);
    assert_eq!(half_period_ns(3), 166_666);
}
