use vstd::prelude::*;

verus! {

/// One two-byte instruction split into its fields.
#[derive(Debug, Clone, Copy, PartialEq, Eq, Structural)]
pub struct OpCode {
    /// Instruction class: the top nibble of the first byte.
    pub op: u8,
    /// First register index: the low nibble of the first byte.
    pub x: u8,
    /// Second register index: the top nibble of the second byte.
    pub y: u8,
    /// The low nibble of the second byte.
    pub n: u8,
    /// The second byte.
    pub nn: u8,
    /// The low twelve bits of the instruction.
    pub nnn: u16,
}

impl OpCode {
    /// The instruction `byte1 byte2` (big-endian) as a 16-bit word.
    pub open spec fn word(byte1: u8, byte2: u8) -> int {
        byte1 as int * 256 + byte2 as int
    }

    /// The fields that `from_bytes` gives for `byte1 byte2`.
    pub open spec fn decoded(byte1: u8, byte2: u8) -> OpCode {
        OpCode {
            op: (byte1 / 16) as u8,
            x: (byte1 % 16) as u8,
            y: (byte2 / 16) as u8,
            n: (byte2 % 16) as u8,
            nn: byte2,
            nnn: (Self::word(byte1, byte2) % 4096) as u16,
        }
    }

    /// Holds of every value that `from_bytes` returns: each nibble field below 16.
    pub open spec fn is_decoded(self) -> bool {
        &&& self.op < 16
        &&& self.x < 16
        &&& self.y < 16
        &&& self.n < 16
        &&& self.nnn < 4096
    }

    /// Decodes the instruction `byte1 byte2`. Total over all byte pairs.
    pub fn from_bytes(byte1: u8, byte2: u8) -> (r: Self)
        ensures
            r.op == (byte1 >> 4u8) & 0xFu8,
            r.x == byte1 & 0xFu8,
            r.y == (byte2 >> 4u8) & 0xFu8,
            r.n == byte2 & 0xFu8,
            r.nn == byte2,
            r.nnn == ((byte1 & 0xFu8) as u16) << 8u16 | byte2 as u16,
            r.op as int == byte1 as int / 16,
            r.x as int == byte1 as int % 16,
            r.y as int == byte2 as int / 16,
            r.n as int == byte2 as int % 16,
            r.nnn as int == Self::word(byte1, byte2) % 4096,
            r.is_decoded(),
            r == Self::decoded(byte1, byte2),
    {
        let op: u8 = (byte1 >> 4) & 0xF;
        let x: u8 = byte1 & 0xF;
        let y: u8 = (byte2 >> 4) & 0xF;
        let n: u8 = byte2 & 0xF;
        let low: u16 = (byte1 & 0xF) as u16;
        let nnn: u16 = (low << 8) | (byte2 as u16);
        assert(op == byte1 / 16 && x == byte1 % 16 && y == byte2 / 16 && n == byte2 % 16)
            by (bit_vector)
            requires
                op == (byte1 >> 4u8) & 0xFu8,
                x == byte1 & 0xFu8,
                y == (byte2 >> 4u8) & 0xFu8,
                n == byte2 & 0xFu8,
        ;
        let b1: u16 = byte1 as u16;
        let b2: u16 = byte2 as u16;
        assert(nnn == (b1 * 256 + b2) % 4096) by (bit_vector)
            requires
                b1 < 256,
                b2 < 256,
                low == b1 & 0xFu16,
                nnn == (low << 8u16) | b2,
        ;
        let r = OpCode { op, x, y, n, nn: byte2, nnn };
        r
    }
}

} // verus!
