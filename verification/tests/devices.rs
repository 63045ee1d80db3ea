use rvkernel::mm::{kernel_image_range, Bitmap, MMError, Range, UsableRanges};
use rvkernel::timer_interrupt::{set_timer_interval_for_interrupt, Ticks};
use rvkernel::uart::{
    get_mem_addr, handle_interrupt, init, interrupt_identity_register, read_byte, send_byte, set_baude_rate,
    set_dlab_bit, write_reg, IOError, RegWrite8, RingBuffer, UartInterrupt,
};
use rvkernel::utils::{
    align4, align_up, bytes_eq, get_null_terminated_u8_slice, mb, nul_list_contains, read_be_u32_from_addr,
    read_be_u32_from_bytes, read_be_u64_from_addr,
};

// ---------------------------------------------------------------- utils

#[test]
fn big_endian_reads() {
    let b = [0x12, 0x34, 0x56, 0x78, 0x9a, 0xbc, 0xde, 0xf0, 0x01];
    assert_eq!(read_be_u32_from_addr(&b, 0), 0x1234_5678);
    assert_eq!(read_be_u32_from_addr(&b, 5), 0xbcde_f001);
    assert_eq!(read_be_u64_from_addr(&b, 0), 0x1234_5678_9abc_def0);
    assert_eq!(read_be_u64_from_addr(&b, 1), 0x3456_789a_bcde_f001);
    assert_eq!(read_be_u32_from_bytes(&b[..4]), Some(0x1234_5678));
    assert_eq!(read_be_u32_from_bytes(&b[..3]), None);
}

#[test]
fn alignment() {
    assert_eq!(align4(0), 0);
    assert_eq!(align4(1), 4);
    assert_eq!(align4(4), 4);
    assert_eq!(align4(7), 8);
    assert_eq!(align_up(0x1001, 0x1000), 0x2000);
    assert_eq!(align_up(0x1000, 0x1000), 0x1000);
    assert_eq!(align_up(9, 8), 16);
    assert_eq!(align_up(5, 1), 5);
    assert_eq!(mb(3), 3 * 1024 * 1024);
}

#[test]
fn nul_terminated_strings() {
    let b = b"abc\0de\0f";
    assert_eq!(get_null_terminated_u8_slice(b, 0, 8), Some(3));
    assert_eq!(get_null_terminated_u8_slice(b, 4, 4), Some(2));
    assert_eq!(get_null_terminated_u8_slice(b, 3, 1), Some(0));
    assert_eq!(get_null_terminated_u8_slice(b, 7, 1), None);
    assert_eq!(get_null_terminated_u8_slice(b, 0, 3), None);
    assert!(nul_list_contains(b"ns16550a\0uart\0", b"uart"));
    assert!(nul_list_contains(b"ns16550a\0uart\0", b"ns16550a"));
    assert!(!nul_list_contains(b"ns16550a\0uart\0", b"ns1655"));
    // Nothing follows a final zero byte: the empty string is not listed.
    assert!(!nul_list_contains(b"ns16550a\0uart\0", b""));
    assert!(!nul_list_contains(b"ns16550a\0uart", b""));
    assert!(!nul_list_contains(b"", b""));
    assert!(!nul_list_contains(b"a\0", b""));
    // Bytes after the last zero byte are one more string.
    assert!(nul_list_contains(b"ns16550a\0uart", b"uart"));
    assert!(!nul_list_contains(b"", b"uart"));
    assert!(bytes_eq(b"xxreg", 2, 3, b"reg"));
    assert!(!bytes_eq(b"xxreg", 1, 3, b"reg"));
    assert!(!bytes_eq(b"xxreg", 2, 2, b"reg"));
}

// ---------------------------------------------------------------- timer

#[test]
fn timer_deadline_and_dots() {
    assert_eq!(set_timer_interval_for_interrupt(0), 1_000_000);
    assert_eq!(set_timer_interval_for_interrupt(5), 1_000_005);
    let mut t = Ticks::new();
    let dots: Vec<bool> = (0..20).map(|_| t.tick()).collect();
    assert_eq!(dots.iter().filter(|d| **d).count(), 2);
    assert!(dots[9] && dots[19]);
    assert!(!dots[0] && !dots[10]);
}

// ---------------------------------------------------------------- uart

#[test]
fn uart_register_writes() {
    assert_eq!(get_mem_addr(5), 0x1000_0005);
    assert_eq!(write_reg(1, 0xaa), RegWrite8 { addr: 0x1000_0001, value: 0xaa });
    assert_eq!(set_dlab_bit(), RegWrite8 { addr: 0x1000_0003, value: 0x80 });
    assert_eq!(
        set_baude_rate(),
        [
            RegWrite8 { addr: 0x1000_0003, value: 0x80 },
            RegWrite8 { addr: 0x1000_0000, value: 3 },
            RegWrite8 { addr: 0x1000_0001, value: 0 },
        ]
    );
    assert_eq!(
        init(),
        [
            RegWrite8 { addr: 0x1000_0003, value: 0x80 },
            RegWrite8 { addr: 0x1000_0000, value: 3 },
            RegWrite8 { addr: 0x1000_0001, value: 0 },
            RegWrite8 { addr: 0x1000_0003, value: 0x03 },
            RegWrite8 { addr: 0x1000_0001, value: 0x05 },
        ]
    );
    assert_eq!(send_byte(b'x'), RegWrite8 { addr: 0x1000_0000, value: b'x' });
    assert_eq!(read_byte(), 0x1000_0000);
    assert_eq!(interrupt_identity_register(), 0x1000_0002);
}

#[test]
fn uart_interrupt_decisions() {
    assert_eq!(handle_interrupt(0xc6), UartInterrupt::ReadLineStatus(0x1000_0005));
    assert_eq!(handle_interrupt(0xc4), UartInterrupt::ReadData(0x1000_0000));
    assert_eq!(handle_interrupt(0x04), UartInterrupt::ReadData(0x1000_0000));
    assert_eq!(handle_interrupt(0xc2), UartInterrupt::Nothing);
    assert_eq!(handle_interrupt(0xc1), UartInterrupt::Nothing);
    assert_eq!(handle_interrupt(0x0c), UartInterrupt::Nothing);
}

#[test]
fn ring_buffer_is_first_in_first_out() {
    let mut r = RingBuffer::new();
    assert_eq!(r.pop_byte(), None);
    for b in 1..=5u8 {
        assert_eq!(r.push_byte(b), Ok(()));
    }
    assert_eq!(r.pop_byte(), Some(1));
    assert_eq!(r.pop_byte(), Some(2));
    assert_eq!(r.push_byte(6), Ok(()));
    let mut out = Vec::new();
    while let Some(b) = r.pop_byte() {
        out.push(b);
    }
    assert_eq!(out, vec![3, 4, 5, 6]);
}

#[test]
fn ring_buffer_holds_127_bytes() {
    let mut r = RingBuffer::new();
    for i in 0..127u32 {
        assert_eq!(r.push_byte(i as u8), Ok(()));
    }
    assert_eq!(r.push_byte(200), Err(IOError::BufferOverflow));
    assert_eq!(r.pop_byte(), Some(0));
    assert_eq!(r.push_byte(200), Ok(()));
    // Wraps around the end of the storage and keeps the order.
    for i in 1..127u32 {
        assert_eq!(r.pop_byte(), Some(i as u8));
    }
    assert_eq!(r.pop_byte(), Some(200));
    assert_eq!(r.pop_byte(), None);
}

// ---------------------------------------------------------------- ranges and bitmap

fn ranges(rs: &[(usize, usize)]) -> UsableRanges {
    let mut u = UsableRanges::new();
    for (s, e) in rs {
        u.push(Range { start: *s, end: *e }).unwrap();
    }
    u
}

fn pairs(u: &UsableRanges) -> Vec<(usize, usize)> {
    u.get_ranges().iter().map(|r| (r.start, r.end)).collect()
}

#[test]
fn subtracting_holes() {
    let mut u = ranges(&[(0x1000, 0x9000), (0x10000, 0x12000)]);
    u.subtract(0x3000, 0x4000).unwrap();
    assert_eq!(pairs(&u), vec![(0x1000, 0x3000), (0x4000, 0x9000), (0x10000, 0x12000)]);
    // A hole over a range's start, one over a whole range, an empty hole.
    u.subtract(0x0, 0x2000).unwrap();
    u.subtract(0x10000, 0x12000).unwrap();
    u.subtract(0x5000, 0x5000).unwrap();
    assert_eq!(pairs(&u), vec![(0x2000, 0x3000), (0x4000, 0x9000)]);
    // A hole that misses every range.
    u.subtract(0x20000, 0x30000).unwrap();
    assert_eq!(pairs(&u), vec![(0x2000, 0x3000), (0x4000, 0x9000)]);
    // Addresses inside the hole are gone, the others stay.
    u.subtract(0x8000, 0x8800).unwrap();
    assert_eq!(pairs(&u), vec![(0x2000, 0x3000), (0x4000, 0x8000), (0x8800, 0x9000)]);
}

#[test]
fn range_list_is_bounded() {
    let mut u = UsableRanges::new();
    for i in 0..16usize {
        assert_eq!(u.push(Range { start: i * 0x10000, end: i * 0x10000 + 0x8000 }), Ok(()));
    }
    assert_eq!(u.push(Range { start: 0x100_0000, end: 0x100_1000 }), Err(MMError::InitError));
    // Splitting a range would need a seventeenth.
    assert_eq!(u.subtract(0x1000, 0x2000), Err(MMError::InitError));
    assert_eq!(u.get_ranges().len(), 16);
    assert_eq!(u.get_ranges()[0], Range { start: 0, end: 0x8000 });
}

#[test]
fn kernel_image_end_rounds_up() {
    assert_eq!(kernel_image_range(0x8020_0000, 0x8021_0010), (0x8020_0000, 0x8021_1000));
    assert_eq!(kernel_image_range(0x8020_0000, 0x8021_0000), (0x8020_0000, 0x8021_0000));
}

#[test]
fn bitmap_operations() {
    assert_eq!(Bitmap::locate(0), (0, 1));
    assert_eq!(Bitmap::locate(70), (1, 1 << 6));
    let mut b = Bitmap { base: 0x10_0000, words: vec![0, 0], frames: 100 };
    b.set_range(0x10_0800, 0x10_4000, true);
    // Only frames wholly inside the range: 1, 2 and 3.
    assert_eq!(b.words[0], 0b1110);
    assert_eq!(b.alloc_frame_and_return_addr(), Some(0x10_0000));
    assert_eq!(b.alloc_frame_and_return_addr(), Some(0x10_4000));
    assert_eq!(b.free_frame(0x10_2000), Ok(()));
    assert_eq!(b.alloc_frame_and_return_addr(), Some(0x10_2000));
    assert_eq!(b.free_frame(0x10_5000), Err(MMError::FreeFrameError));
    b.set_range(0x0, 0x20_0000, true);
    assert_eq!(b.words[1], (1u64 << 36) - 1);
    assert_eq!(b.alloc_frame_and_return_addr(), None);
}
