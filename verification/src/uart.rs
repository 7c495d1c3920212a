use vstd::prelude::*;

verus! {

/// One byte stored to a device register.
#[derive(Clone, Copy, Debug, PartialEq, Eq)]
pub struct RegisterWrite {
    pub address: usize,
    pub value: u8,
}

/// A 16550-compatible UART whose registers start at `base_addr`.
#[derive(Clone, Copy, Debug, PartialEq, Eq)]
pub struct Uart {
    base_addr: usize,
}

/// The register writes that set the UART up at `base`: 8-bit words, FIFO on,
/// receive interrupt on, divisor latch 592 (low byte 0x50, high byte 0x02)
/// written with the divisor-latch access bit raised, then lowered again.
pub open spec fn uart_init_writes(base: usize) -> Seq<RegisterWrite> {
    seq![
        RegisterWrite { address: (base + 3) as usize, value: 0x03 },
        RegisterWrite { address: (base + 2) as usize, value: 0x01 },
        RegisterWrite { address: (base + 1) as usize, value: 0x01 },
        RegisterWrite { address: (base + 3) as usize, value: 0x83 },
        RegisterWrite { address: base, value: 0x50 },
        RegisterWrite { address: (base + 1) as usize, value: 0x02 },
        RegisterWrite { address: (base + 3) as usize, value: 0x03 },
    ]
}

impl Uart {
    /// The UART whose registers start at `base_addr`.
    pub fn new(base_addr: usize) -> (u: Self)
        ensures
            u.base() == base_addr,
    {
        Uart { base_addr: base_addr }
    }

    /// Address of the UART's first register.
    pub closed spec fn base(&self) -> usize {
        self.base_addr
    }

    /// Address of the UART's first register.
    pub fn base_addr(&self) -> (r: usize)
        ensures
            r == self.base(),
    {
        self.base_addr
    }

    /// The writes, in order, that initialise the UART.
    pub fn init(&self) -> (r: Vec<RegisterWrite>)
        requires
            self.base() + 3 <= usize::MAX,
        ensures
            r@ == uart_init_writes(self.base()),
    {
        let p = self.base_addr;
        let lcr: u8 = 1u8 << 0u8 | 1u8 << 1u8;
        assert(lcr == 3u8) by (bit_vector)
            requires
                lcr == 1u8 << 0u8 | 1u8 << 1u8,
        ;
        let mut writes: Vec<RegisterWrite> = Vec::new();
        // word length: 8 bits
        writes.push(RegisterWrite { address: p + 3, value: lcr });
        // FIFO enable
        writes.push(RegisterWrite { address: p + 2, value: 1u8 << 0u8 });
        // receive-data-available interrupt enable
        writes.push(RegisterWrite { address: p + 1, value: 1u8 << 0u8 });
        // divisor latch access
        let dlab = lcr | 1u8 << 7u8;
        assert(dlab == 0x83u8) by (bit_vector)
            requires
                lcr == 3u8,
                dlab == lcr | 1u8 << 7u8,
        ;
        writes.push(RegisterWrite { address: p + 3, value: dlab });
        let div: u16 = 592;
        let div_least = (div & 0xFF) as u8;
        let div_most = (div >> 8u16) as u8;
        assert(div_least == 0x50u8 && div_most == 0x02u8) by (bit_vector)
            requires
                div == 592u16,
                div_least == (div & 0xFFu16) as u8,
                div_most == (div >> 8u16) as u8,
        ;
        writes.push(RegisterWrite { address: p, value: div_least });
        writes.push(RegisterWrite { address: p + 1, value: div_most });
        writes.push(RegisterWrite { address: p + 3, value: lcr });
        assert(1u8 << 0u8 == 1u8) by (bit_vector);
        assert(writes@ =~= uart_init_writes(p));
        writes
    }

    /// The write that sends byte `c`.
    pub fn put(&self, c: u8) -> (r: RegisterWrite)
        ensures
            r == (RegisterWrite { address: self.base(), value: c }),
    {
        RegisterWrite { address: self.base_addr, value: c }
    }

    /// The writes that send `bytes`, one `put` per byte in order.
    pub fn write_bytes(&self, bytes: &[u8]) -> (r: Vec<RegisterWrite>)
        ensures
            r@.len() == bytes@.len(),
            forall|i: int|
                0 <= i < bytes@.len() ==> r@[i] == (RegisterWrite {
                    address: self.base(),
                    value: #[trigger] bytes@[i],
                }),
    {
        let mut writes: Vec<RegisterWrite> = Vec::new();
        let mut i: usize = 0;
        while i < bytes.len()
            invariant
                i <= bytes@.len(),
                writes@.len() == i,
                forall|j: int|
                    0 <= j < i ==> writes@[j] == (RegisterWrite {
                        address: self.base(),
                        value: #[trigger] bytes@[j],
                    }),
            decreases bytes@.len() - i,
        {
            writes.push(self.put(bytes[i]));
            i = i + 1;
        }
        writes
    }
}

} // verus!
