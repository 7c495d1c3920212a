use vstd::prelude::*;

verus! {

/// Privilege levels of a RISC-V hart, as encoded in the `xPP` fields.
#[derive(Clone, Copy, Debug, PartialEq, Eq)]
pub enum CpuMode {
    User,
    Supervisor,
    Machine,
}

/// The two-bit encoding of a privilege level.
pub open spec fn mode_code(m: CpuMode) -> u64 {
    match m {
        CpuMode::User => 0,
        CpuMode::Supervisor => 1,
        CpuMode::Machine => 3,
    }
}

impl CpuMode {
    /// The encoding of the mode: 0 for user, 1 for supervisor, 3 for machine.
    pub fn code(self) -> (r: u64)
        ensures
            r == mode_code(self),
    {
        match self {
            CpuMode::User => 0,
            CpuMode::Supervisor => 1,
            CpuMode::Machine => 3,
        }
    }

    /// The mode's code shifted left by one bit.
    pub fn active(self) -> (r: u64)
        ensures
            r == mode_code(self) * 2,
    {
        let c = self.code();
        assert(c << 1u64 == c * 2) by (bit_vector)
            requires
                c <= 3,
        ;
        c << 1
    }

    /// `active` shifted left by nine more bits, so that the code lands in bits 10..12.
    pub fn higher(self) -> (r: u64)
        ensures
            r == mode_code(self) * 2 * 512,
    {
        let a = self.active();
        assert(a << 9u64 == a * 512) by (bit_vector)
            requires
                a <= 6,
        ;
        a << 9
    }

    /// `active` shifted left by six bits.
    pub fn middle(self) -> (r: u64)
        ensures
            r == mode_code(self) * 2 * 64,
    {
        let a = self.active();
        assert(a << 6u64 == a * 64) by (bit_vector)
            requires
                a <= 6,
        ;
        a << 6
    }

    /// `active` shifted left by three bits.
    pub fn lower(self) -> (r: u64)
        ensures
            r == mode_code(self) * 2 * 8,
    {
        let a = self.active();
        assert(a << 3u64 == a * 8) by (bit_vector)
            requires
                a <= 6,
        ;
        a << 3
    }
}

/// The `mstatus` value written before `mret` to drop from machine mode into
/// supervisor mode: the machine-mode bits are toggled off, then the
/// supervisor bits are set.
pub fn supervisor_status(status: u64) -> (r: u64)
    ensures
        r == (status ^ 0xc00u64) | 0x400u64,
{
    let mut s = status;
    s = s ^ CpuMode::Machine.higher();
    s = s | CpuMode::Supervisor.higher();
    s
}

/// Where the two bits that `CpuMode::higher` addresses (bits 10..12) hold the
/// machine code, the value that `supervisor_status` computes holds the
/// supervisor code there; every other bit keeps its value.
pub proof fn lemma_supervisor_status_fields(status: u64)
    ensures
        (status >> 10u64) & 3u64 == 3u64 ==> (((status ^ 0xc00u64) | 0x400u64) >> 10u64) & 3u64
            == 1u64,
        ((status ^ 0xc00u64) | 0x400u64) & !0xc00u64 == status & !0xc00u64,
{
    assert((status >> 10u64) & 3u64 == 3u64 ==> (((status ^ 0xc00u64) | 0x400u64) >> 10u64) & 3u64
        == 1u64) by (bit_vector);
    assert(((status ^ 0xc00u64) | 0x400u64) & !0xc00u64 == status & !0xc00u64) by (bit_vector);
}

} // verus!
