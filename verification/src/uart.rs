//! The NS16550A UART: the register writes that set it up and send bytes,
//! the decision an interrupt calls for, and the receive ring buffer.
use vstd::prelude::*;

verus! {

/// The UART's interrupt number on the qemu virt machine.
pub const IRQ: u32 = 10;
pub const UART0: u32 = 0x1000_0000;

// The UART control registers, see http://byterunner.com/16550.html.
pub const TRANSMITTER_HOLDING_REGISTER_ADDR: u8 = 0; // DLAB = 0
pub const RECEIVER_BUFFER_REGISTER_ADDR: u8 = 0; // DLAB = 0
pub const INTERRUPT_ENABLE_REGISTER_ADDR: u8 = 1;
pub const LINE_CONTROL_REGISTER_ADDR: u8 = 3;
pub const DIVISOR_LATCH_LS_ADDR: u8 = 0; // DLAB = 1
pub const DIVISOR_LATCH_MS_ADDR: u8 = 1; // DLAB = 1
pub const INTERRUPT_IDENTIFIER_REGISTER_ADDR: u8 = 2;
pub const LINE_STATUS_REGISTER_ADDR: u8 = 5;
pub const IO_BUFFER_SIZE: usize = 128;

/// An 8-bit register write.
#[derive(PartialEq, Eq, Structural, Clone, Copy, Debug)]
pub struct RegWrite8 {
    pub addr: u32,
    pub value: u8,
}

/// The memory-mapped address of a UART register.
pub fn get_mem_addr(offset: u8) -> (r: u32)
    ensures
        r == UART0 + offset,
{
    UART0 + offset as u32
}

/// The write of `val` to a UART register.
pub fn write_reg(reg_addr: u8, val: u8) -> (r: RegWrite8)
    ensures
        r == (RegWrite8 { addr: (UART0 + reg_addr) as u32, value: val }),
{
    RegWrite8 { addr: get_mem_addr(reg_addr), value: val }
}

/// Sets the divisor-latch access bit (and nothing else) in the line
/// control register.
pub fn set_dlab_bit() -> (r: RegWrite8)
    ensures
        r == (RegWrite8 { addr: (UART0 + LINE_CONTROL_REGISTER_ADDR) as u32, value: 0x80 }),
{
    let v: u8 = 1 << 7;
    assert(v == 0x80) by (bit_vector)
        requires
            v == 1u8 << 7u8,
    ;
    write_reg(LINE_CONTROL_REGISTER_ADDR, v)
}

/// Divisor 3 (38.4 kbaud): latch access on, low byte 3, high byte 0.
pub fn set_baude_rate() -> (r: [RegWrite8; 3])
    ensures
        r[0] == (RegWrite8 { addr: (UART0 + LINE_CONTROL_REGISTER_ADDR) as u32, value: 0x80 }),
        r[1] == (RegWrite8 { addr: (UART0 + DIVISOR_LATCH_LS_ADDR) as u32, value: 3 }),
        r[2] == (RegWrite8 { addr: (UART0 + DIVISOR_LATCH_MS_ADDR) as u32, value: 0 }),
{
    [set_dlab_bit(), write_reg(DIVISOR_LATCH_LS_ADDR, 3), write_reg(DIVISOR_LATCH_MS_ADDR, 0)]
}

/// 8-bit characters, one stop bit, no parity, latch access off.
pub fn set_line_control_register_for_transmission_and_reception() -> (r: RegWrite8)
    ensures
        r == (RegWrite8 { addr: (UART0 + LINE_CONTROL_REGISTER_ADDR) as u32, value: 0x03 }),
{
    let char_len: u8 = (1 << 0) | (1 << 1); // 8 bit char
    let num_stop_bits: u8 = 0 << 2; // 0->1 and 1->2 stop bits, receiver only uses first.
    let parity_bit: u8 = 0 << 3;
    let even_parity_select: u8 = 0 << 4;
    let stick_parity: u8 = 0 << 5; // not needed
    let break_control_bit: u8 = 0 << 6;
    let divisor_latch_access: u8 = 0 << 7;
    let v = char_len | num_stop_bits | parity_bit | even_parity_select | stick_parity | break_control_bit
        | divisor_latch_access;
    assert(v == 3) by (bit_vector)
        requires
            v == ((1u8 << 0u8) | (1u8 << 1u8)) | (0u8 << 2u8) | (0u8 << 3u8) | (0u8 << 4u8) | (0u8 << 5u8) | (0u8 << 6u8) | (0u8 << 7u8),
    ;
    write_reg(LINE_CONTROL_REGISTER_ADDR, v)
}

/// Interrupts on received data and on receiver line status; none on an
/// empty transmit register, which is empty almost always and would fire
/// without end.
pub fn init_interrtup_enable_register() -> (r: RegWrite8)
    ensures
        r == (RegWrite8 { addr: (UART0 + INTERRUPT_ENABLE_REGISTER_ADDR) as u32, value: 0x05 }),
{
    let received_data_available_interrupt: u8 = 1 << 0;
    let transmitter_holding_register_empty_interrupt: u8 = 0 << 1;
    let receiver_line_status_interrupt: u8 = 1 << 2;
    let v = received_data_available_interrupt | transmitter_holding_register_empty_interrupt
        | receiver_line_status_interrupt;
    assert(v == 5) by (bit_vector)
        requires
            v == (1u8 << 0u8) | (0u8 << 1u8) | (1u8 << 2u8),
    ;
    write_reg(INTERRUPT_ENABLE_REGISTER_ADDR, v)
}

/// The register writes that set the UART up, in order: the baud rate (with
/// the divisor latch open), the line format (which closes the latch), then
/// the interrupt enables, which offset 1 reaches only with the latch closed.
pub fn init() -> (r: [RegWrite8; 5])
    ensures
        r[0] == (RegWrite8 { addr: (UART0 + LINE_CONTROL_REGISTER_ADDR) as u32, value: 0x80 }),
        r[1] == (RegWrite8 { addr: (UART0 + DIVISOR_LATCH_LS_ADDR) as u32, value: 3 }),
        r[2] == (RegWrite8 { addr: (UART0 + DIVISOR_LATCH_MS_ADDR) as u32, value: 0 }),
        r[3] == (RegWrite8 { addr: (UART0 + LINE_CONTROL_REGISTER_ADDR) as u32, value: 0x03 }),
        r[4] == (RegWrite8 { addr: (UART0 + INTERRUPT_ENABLE_REGISTER_ADDR) as u32, value: 0x05 }),
{
    let baud = set_baude_rate();
    [baud[0], baud[1], baud[2], set_line_control_register_for_transmission_and_reception(),
        init_interrtup_enable_register()]
}

/// The write that sends `val`.
pub fn send_byte(val: u8) -> (r: RegWrite8)
    ensures
        r == (RegWrite8 { addr: (UART0 + TRANSMITTER_HOLDING_REGISTER_ADDR) as u32, value: val }),
{
    write_reg(TRANSMITTER_HOLDING_REGISTER_ADDR, val)
}

/// The register that holds a received byte.
pub fn read_byte() -> (r: u32)
    ensures
        r == UART0 + RECEIVER_BUFFER_REGISTER_ADDR,
{
    get_mem_addr(RECEIVER_BUFFER_REGISTER_ADDR)
}

/// The register that names the pending interrupt.
pub fn interrupt_identity_register() -> (r: u32)
    ensures
        r == UART0 + INTERRUPT_IDENTIFIER_REGISTER_ADDR,
{
    get_mem_addr(INTERRUPT_IDENTIFIER_REGISTER_ADDR)
}

/// What an interrupt calls for.
#[derive(PartialEq, Eq, Structural, Clone, Copy, Debug)]
pub enum UartInterrupt {
    /// Overrun, parity or framing error: read the line status register at
    /// this address to clear it.
    ReadLineStatus(u32),
    /// A byte arrived: read it at this address and keep it.
    ReadData(u32),
    /// Nothing to do.
    Nothing,
}

pub const RECEIVER_LINE_STATUS_INTERRUPT: u8 = 6;
pub const RECEIVER_DATA_AVAILABLE_INTERRUPT: u8 = 4;
pub const RECEIVER_TRANSMITTER_HOLDING_EMPTY_INTERRUPT: u8 = 2;

/// Decides from the interrupt identification register's value what the
/// interrupt calls for.
pub fn handle_interrupt(interrupt_identity_register_val: u8) -> (r: UartInterrupt)
    ensures
        r == (if interrupt_identity_register_val & 0x0f == RECEIVER_LINE_STATUS_INTERRUPT {
            UartInterrupt::ReadLineStatus((UART0 + LINE_STATUS_REGISTER_ADDR) as u32)
        } else if interrupt_identity_register_val & 0x0f == RECEIVER_DATA_AVAILABLE_INTERRUPT {
            UartInterrupt::ReadData((UART0 + RECEIVER_BUFFER_REGISTER_ADDR) as u32)
        } else {
            UartInterrupt::Nothing
        }),
{
    let id = interrupt_identity_register_val & 0x0f;
    if id == RECEIVER_LINE_STATUS_INTERRUPT {
        UartInterrupt::ReadLineStatus(get_mem_addr(LINE_STATUS_REGISTER_ADDR))
    } else if id == RECEIVER_DATA_AVAILABLE_INTERRUPT {
        UartInterrupt::ReadData(read_byte())
    } else if id == RECEIVER_TRANSMITTER_HOLDING_EMPTY_INTERRUPT {
        UartInterrupt::Nothing
    } else {
        UartInterrupt::Nothing
    }
}

// ---------------------------------------------------------------- ring buffer

/// Why a byte was not kept.
#[derive(PartialEq, Eq, Structural, Clone, Copy, Debug)]
pub enum IOError {
    BufferOverflow,
}

/// Received bytes waiting to be read: `data[read..write]`, wrapping around.
/// One slot always stays empty, so it holds at most 127 bytes.
pub struct RingBuffer {
    pub read: usize,
    pub write: usize,
    pub data: Vec<u8>,
}

impl RingBuffer {
    pub open spec fn wf(&self) -> bool {
        &&& self.data@.len() == IO_BUFFER_SIZE
        &&& self.read < IO_BUFFER_SIZE
        &&& self.write < IO_BUFFER_SIZE
    }

    /// The bytes waiting, oldest first.
    pub open spec fn view(&self) -> Seq<u8> {
        let n = (self.write + IO_BUFFER_SIZE - self.read) % IO_BUFFER_SIZE as int;
        Seq::new(n as nat, |i: int| self.data@[(self.read + i) % IO_BUFFER_SIZE as int])
    }

    /// An empty buffer.
    pub fn new() -> (r: Self)
        ensures
            r.wf(),
            r@ == Seq::<u8>::empty(),
    {
        let mut data: Vec<u8> = Vec::new();
        while data.len() < IO_BUFFER_SIZE
            invariant
                data@.len() <= IO_BUFFER_SIZE,
            decreases IO_BUFFER_SIZE - data.len(),
        {
            data.push(0);
        }
        let r = RingBuffer { read: 0, write: 0, data };
        assert(r@ =~= Seq::<u8>::empty());
        r
    }

    /// Appends a byte; refused, leaving the buffer as it was, when 127
    /// bytes are already waiting.
    pub fn push_byte(&mut self, val: u8) -> (r: Result<(), IOError>)
        requires
            old(self).wf(),
        ensures
            final(self).wf(),
            old(self)@.len() == IO_BUFFER_SIZE - 1 ==> r == Err::<(), IOError>(IOError::BufferOverflow)
                && final(self)@ == old(self)@,
            old(self)@.len() < IO_BUFFER_SIZE - 1 ==> r is Ok && final(self)@ == old(self)@.push(val),
    {
        if (self.write + 1) % IO_BUFFER_SIZE == self.read {
            return Err(IOError::BufferOverflow);
        }
        let ghost before = self@;
        let w = self.write;
        self.data.set(w, val);
        self.write = (w + 1) % IO_BUFFER_SIZE;
        proof {
            assert forall|i: int| 0 <= i < before.len() implies #[trigger] self.data@[(self.read + i) % 128] == before[i] by {
                assert((self.read + i) % 128 != w as int);
            }
            assert(self@ =~= before.push(val));
        }
        Ok(())
    }

    /// Takes the oldest byte, if any.
    pub fn pop_byte(&mut self) -> (r: Option<u8>)
        requires
            old(self).wf(),
        ensures
            final(self).wf(),
            old(self)@.len() == 0 ==> r is None && final(self)@ == old(self)@,
            old(self)@.len() > 0 ==> r == Some(old(self)@[0]) && final(self)@ == old(self)@.drop_first(),
    {
        if self.read == self.write {
            return None;
        }
        let byte = self.data[self.read];
        let ghost before = self@;
        self.read = (self.read + 1) % IO_BUFFER_SIZE;
        proof {
            assert(self@ =~= before.drop_first());
        }
        Some(byte)
    }
}

} // verus!
