use rand::Rng;
use vstd::prelude::*;

use crate::error::ChipError;
use crate::op_code::OpCode;
use crate::semantics::{
    alu, collides, drawn, first_pressed, misc, origin_x, origin_y, outcome, skip_if, sprite_bit,
    sprite_covers, sprite_in_memory, step, visible_rows,
};

verus! {

/// The sixteen hexadecimal glyphs, five rows each, one byte per row.
pub open spec fn font_sprites() -> Seq<u8> {
    seq![
        0xF0u8, 0x90, 0x90, 0x90, 0xF0, 0x20, 0x60, 0x20, 0x20, 0x70,
        0xF0, 0x10, 0xF0, 0x80, 0xF0, 0xF0, 0x10, 0xF0, 0x10, 0xF0,
        0x90, 0x90, 0xF0, 0x10, 0x10, 0xF0, 0x80, 0xF0, 0x10, 0xF0,
        0xF0, 0x80, 0xF0, 0x90, 0xF0, 0xF0, 0x10, 0x20, 0x40, 0x40,
        0xF0, 0x90, 0xF0, 0x90, 0xF0, 0xF0, 0x90, 0xF0, 0x10, 0xF0,
        0xF0, 0x90, 0xF0, 0x90, 0x90, 0xE0, 0x90, 0xE0, 0x90, 0xE0,
        0xF0, 0x80, 0x80, 0x80, 0xF0, 0xE0, 0x90, 0x90, 0x90, 0xE0,
        0xF0, 0x80, 0xF0, 0x80, 0xF0, 0xF0, 0x80, 0xF0, 0x80, 0x80,
    ]
}

/// The machine as values: what every contract of `State` speaks of.
pub struct MachineView {
    /// Columns of pixels: `display[x][y]` is the pixel at column `x`, row `y`.
    pub display: Seq<Seq<bool>>,
    pub ram: Seq<u8>,
    pub pc: u16,
    pub i: u16,
    pub stack: Seq<u16>,
    pub delay_timer: u8,
    pub sound_timer: u8,
    pub v: Seq<u8>,
    pub keypad: Seq<bool>,
    /// Whether the shift instructions shift `Vx` itself (else they shift `Vy` into `Vx`).
    pub shift_uses_vx: bool,
}

impl MachineView {
    /// The sizes that the machine's arrays fix.
    pub open spec fn wf(self) -> bool {
        &&& self.display.len() == 64
        &&& forall|c: int| 0 <= c < 64 ==> #[trigger] self.display[c].len() == 32
        &&& self.ram.len() == 4096
        &&& self.v.len() == 16
        &&& self.keypad.len() == 16
    }
}

/// A 64 by 32 grid with every pixel off.
pub open spec fn blank_display() -> Seq<Seq<bool>> {
    Seq::new(64, |c: int| Seq::new(32, |r: int| false))
}

/// A value taken modulo 2^8.
pub open spec fn wrap8(a: int) -> u8 {
    (a % 256) as u8
}

/// A value taken modulo 2^16.
pub open spec fn wrap16(a: int) -> u16 {
    (a % 65536) as u16
}

/// The state right after construction: glyphs installed, everything else zero.
pub open spec fn initial_view() -> MachineView {
    MachineView {
        display: blank_display(),
        ram: Seq::new(
            4096,
            |a: int|
                if 0x50 <= a < 0x50 + 80 {
                    font_sprites()[a - 0x50]
                } else {
                    0u8
                },
        ),
        pc: 0x200,
        i: 0,
        stack: Seq::empty(),
        delay_timer: 0,
        sound_timer: 0,
        v: Seq::new(16, |j: int| 0u8),
        keypad: Seq::new(16, |j: int| false),
        shift_uses_vx: true,
    }
}

/// `m` with register `r` set to `value`.
pub open spec fn set_reg(m: MachineView, r: int, value: u8) -> MachineView {
    MachineView { v: m.v.update(r, value), ..m }
}

/// `m` with the flag register `VF` set to 1 when `f` holds, else to 0.
pub open spec fn set_flag(m: MachineView, f: bool) -> MachineView {
    set_reg(m, 15, if f { 1u8 } else { 0u8 })
}

/// Memory with `rom` copied in from the program start on.
pub open spec fn with_rom(ram: Seq<u8>, rom: Seq<u8>) -> Seq<u8> {
    Seq::new(
        ram.len(),
        |a: int|
            if 0x200 <= a < 0x200 + rom.len() {
                rom[a - 0x200]
            } else {
                ram[a]
            },
    )
}

/// Whether the two bytes of the instruction at the program counter lie in memory.
pub open spec fn can_fetch(m: MachineView) -> bool {
    m.pc + 1 < 4096
}

/// The instruction at the program counter.
pub open spec fn fetched(m: MachineView) -> OpCode {
    OpCode::decoded(m.ram[m.pc as int], m.ram[m.pc + 1])
}

/// `m` with the program counter moved past the instruction it points at.
pub open spec fn advanced(m: MachineView) -> MachineView {
    MachineView { pc: wrap16(m.pc + 2), ..m }
}

/// A timer value after one tick: one less, but never below zero.
pub open spec fn tick(t: u8) -> u8 {
    if t > 0 {
        (t - 1) as u8
    } else {
        0
    }
}

/// Relies on `rand::thread_rng` and `Rng::gen::<u8>`: a byte from the
/// thread-local generator, of which nothing is known. (`thread_rng` panics only
/// where the operating system's entropy source cannot seed it.)
#[verifier::external_body]
fn random_byte() -> (r: u8) {
    rand::thread_rng().gen::<u8>()
}

/// Whether pixel `(c, r)` is covered by the sprite and comes before the
/// drawing position `(cx, y)`, rows first.
spec fn covered_before(m: MachineView, op: OpCode, c: int, r: int, y: int, cx: int) -> bool {
    sprite_covers(m, op, c, r) && (r < y || (r == y && c < cx))
}

/// Whether some pixel before `(cx, y)` is on and covered by the sprite.
spec fn collides_before(m: MachineView, op: OpCode, y: int, cx: int) -> bool {
    exists|c: int, r: int|
        0 <= c < 64 && 0 <= r < 32 && m.display[c][r] && #[trigger] covered_before(m, op, c, r, y, cx)
}

/// The complete state of one CHIP-8 machine.
#[derive(Debug)]
pub struct State {
    display: [[bool; 32]; 64],
    ram: [u8; 4096],
    pc: u16,
    i: u16,
    stack: Vec<u16>,
    delay_timer: u8,
    sound_timer: u8,
    v: [u8; 16],
    keypad: [bool; 16],
    shift_uses_vx: bool,
}

/// The frame buffer as columns of pixels.
pub open spec fn display_view(d: [[bool; 32]; 64]) -> Seq<Seq<bool>> {
    Seq::new(64, |c: int| d[c]@)
}

impl View for State {
    type V = MachineView;

    closed spec fn view(&self) -> MachineView {
        MachineView {
            display: display_view(self.display),
            ram: self.ram@,
            pc: self.pc,
            i: self.i,
            stack: self.stack@,
            delay_timer: self.delay_timer,
            sound_timer: self.sound_timer,
            v: self.v@,
            keypad: self.keypad@,
            shift_uses_vx: self.shift_uses_vx,
        }
    }
}

impl State {
    /// A machine with the glyphs installed, the program counter at 0x200 and
    /// everything else cleared.
    pub fn new() -> (r: Self)
        ensures
            r@ == initial_view(),
    {
        let fonts: [u8; 80] = [
            0xF0, 0x90, 0x90, 0x90, 0xF0, 0x20, 0x60, 0x20, 0x20, 0x70,
            0xF0, 0x10, 0xF0, 0x80, 0xF0, 0xF0, 0x10, 0xF0, 0x10, 0xF0,
            0x90, 0x90, 0xF0, 0x10, 0x10, 0xF0, 0x80, 0xF0, 0x10, 0xF0,
            0xF0, 0x80, 0xF0, 0x90, 0xF0, 0xF0, 0x10, 0x20, 0x40, 0x40,
            0xF0, 0x90, 0xF0, 0x90, 0xF0, 0xF0, 0x90, 0xF0, 0x10, 0xF0,
            0xF0, 0x90, 0xF0, 0x90, 0x90, 0xE0, 0x90, 0xE0, 0x90, 0xE0,
            0xF0, 0x80, 0x80, 0x80, 0xF0, 0xE0, 0x90, 0x90, 0x90, 0xE0,
            0xF0, 0x80, 0xF0, 0x80, 0xF0, 0xF0, 0x80, 0xF0, 0x80, 0x80,
        ];
        assert(fonts@ == font_sprites());
        let mut result = State {
            display: [[false; 32]; 64],
            ram: [0; 4096],
            pc: 0x200,
            i: 0,
            stack: Vec::new(),
            delay_timer: 0,
            sound_timer: 0,
            v: [0; 16],
            keypad: [false; 16],
            shift_uses_vx: true,
        };
        assert(result@.display =~~= blank_display());
        assert(result@.v =~= initial_view().v);
        assert(result@.keypad =~= initial_view().keypad);
        let mut k: usize = 0;
        while k < 80
            invariant
                0 <= k <= 80,
                fonts@ == font_sprites(),
                forall|a: int|
                    0 <= a < 4096 ==> #[trigger] result.ram[a] == if 0x50 <= a < 0x50 + k {
                        font_sprites()[a - 0x50]
                    } else {
                        0u8
                    },
                result@.display == blank_display(),
                result.pc == 0x200,
                result.i == 0,
                result.stack@ == Seq::<u16>::empty(),
                result.delay_timer == 0,
                result.sound_timer == 0,
                result@.v == initial_view().v,
                result@.keypad == initial_view().keypad,
                result.shift_uses_vx,
            decreases 80 - k,
        {
            result.ram[0x50 + k] = fonts[k];
            k += 1;
        }
        assert(result@.ram =~= initial_view().ram);
        result
    }

    /// Copies a program into memory from 0x200 on; nothing else changes.
    pub fn load_rom(&mut self, rom: Vec<u8>)
        requires
            rom@.len() <= 4096 - 0x200,
        ensures
            final(self)@ == (MachineView { ram: with_rom(old(self)@.ram, rom@), ..old(self)@ }),
    {
        let mut k: usize = 0;
        while k < rom.len()
            invariant
                0 <= k <= rom@.len() <= 4096 - 0x200,
                forall|a: int|
                    0 <= a < 4096 ==> #[trigger] self.ram[a] == if 0x200 <= a < 0x200 + k {
                        rom@[a - 0x200]
                    } else {
                        old(self).ram[a]
                    },
                self.display == old(self).display,
                self.pc == old(self).pc,
                self.i == old(self).i,
                self.stack == old(self).stack,
                self.delay_timer == old(self).delay_timer,
                self.sound_timer == old(self).sound_timer,
                self.v == old(self).v,
                self.keypad == old(self).keypad,
                self.shift_uses_vx == old(self).shift_uses_vx,
            decreases rom@.len() - k,
        {
            self.ram[0x200 + k] = rom[k];
            k += 1;
        }
        assert(self@.ram =~= with_rom(old(self)@.ram, rom@));
    }

    /// Fetches the instruction at the program counter and moves the counter
    /// past it. Fails, changing nothing, where the instruction would extend
    /// past the end of memory.
    pub fn next_op(&mut self) -> (r: Result<OpCode, ChipError>)
        ensures
            can_fetch(old(self)@) ==> r == Ok::<OpCode, ChipError>(fetched(old(self)@))
                && final(self)@ == advanced(old(self)@),
            !can_fetch(old(self)@) ==> r == Err::<OpCode, ChipError>(ChipError::MemoryOutOfBounds)
                && final(self)@ == old(self)@,
    {
        if self.pc >= 4095 {
            return Err(ChipError::MemoryOutOfBounds);
        }
        let byte1 = self.ram[self.pc as usize];
        let byte2 = self.ram[(self.pc + 1) as usize];
        let next_op = OpCode::from_bytes(byte1, byte2);
        self.pc = self.pc + 2;
        Ok(next_op)
    }

    /// The program counter.
    pub fn pc(&self) -> (r: u16)
        ensures
            r == self@.pc,
    {
        self.pc
    }

    /// The index register `I`.
    pub fn index_register(&self) -> (r: u16)
        ensures
            r == self@.i,
    {
        self.i
    }

    /// The byte at address `address`.
    pub fn memory_at(&self, address: usize) -> (r: u8)
        requires
            address < 4096,
        ensures
            r == self@.ram[address as int],
    {
        self.ram[address]
    }

    /// The delay timer.
    pub fn delay_timer(&self) -> (r: u8)
        ensures
            r == self@.delay_timer,
    {
        self.delay_timer
    }

    /// The sound timer.
    pub fn sound_timer(&self) -> (r: u8)
        ensures
            r == self@.sound_timer,
    {
        self.sound_timer
    }

    /// The frame buffer, as columns of 32 pixels.
    pub fn get_frame_buffer(&self) -> (r: &[[bool; 32]; 64])
        ensures
            display_view(*r) == self@.display,
    {
        &self.display
    }

    /// The register that the instruction's `x` field names.
    pub fn get_vx(&self, op_code: &OpCode) -> (r: u8)
        requires
            op_code.x < 16,
        ensures
            r == self@.v[op_code.x as int],
    {
        self.v[op_code.x as usize]
    }

    /// Sets the register that the instruction's `x` field names.
    pub fn set_vx(&mut self, op_code: &OpCode, value: u8)
        requires
            op_code.x < 16,
        ensures
            final(self)@ == set_reg(old(self)@, op_code.x as int, value),
    {
        self.v[op_code.x as usize] = value;
        assert(self@.v =~= old(self)@.v.update(op_code.x as int, value));
    }

    /// The register that the instruction's `y` field names.
    pub fn get_vy(&self, op_code: &OpCode) -> (r: u8)
        requires
            op_code.y < 16,
        ensures
            r == self@.v[op_code.y as int],
    {
        self.v[op_code.y as usize]
    }

    /// Sets the flag register `VF` to 1 or 0.
    pub fn set_carry(&mut self, value: bool)
        ensures
            final(self)@ == set_flag(old(self)@, value),
    {
        self.v[0xF] = if value {
            1
        } else {
            0
        };
        assert(self@.v =~= old(self)@.v.update(15, if value { 1u8 } else { 0u8 }));
    }

    /// One tick of both timers: each that is above zero goes down by one.
    pub fn decrement_timers(&mut self)
        ensures
            final(self)@ == (MachineView {
                delay_timer: tick(old(self)@.delay_timer),
                sound_timer: tick(old(self)@.sound_timer),
                ..old(self)@
            }),
    {
        if self.delay_timer > 0 {
            self.delay_timer -= 1;
        }
        if self.sound_timer > 0 {
            self.sound_timer -= 1;
        }
    }

    /// Marks key `key` as pressed.
    pub fn key_down(&mut self, key: usize)
        requires
            key < 16,
        ensures
            final(self)@ == (MachineView { keypad: old(self)@.keypad.update(key as int, true), ..old(self)@ }),
    {
        self.keypad[key] = true;
        assert(self@.keypad =~= old(self)@.keypad.update(key as int, true));
    }

    /// Marks key `key` as released.
    pub fn key_up(&mut self, key: usize)
        requires
            key < 16,
        ensures
            final(self)@ == (MachineView { keypad: old(self)@.keypad.update(key as int, false), ..old(self)@ }),
    {
        self.keypad[key] = false;
        assert(self@.keypad =~= old(self)@.keypad.update(key as int, false));
    }

    /// Chooses what the shift instructions shift: `Vx` itself (the default)
    /// or `Vy`, as the earliest interpreters did.
    pub fn set_shift_uses_vx(&mut self, uses_vx: bool)
        ensures
            final(self)@ == (MachineView { shift_uses_vx: uses_vx, ..old(self)@ }),
    {
        self.shift_uses_vx = uses_vx;
    }

    /// Sets pixel `(x, y)` of the frame buffer.
    fn set_pixel(&mut self, x: usize, y: usize, on: bool)
        requires
            x < 64,
            y < 32,
        ensures
            final(self)@ == (MachineView {
                display: old(self)@.display.update(x as int, old(self)@.display[x as int].update(y as int, on)),
                ..old(self)@
            }),
    {
        self.display[x][y] = on;
        assert(self@.display =~~= old(self)@.display.update(x as int, old(self)@.display[x as int].update(y as int, on)));
    }

    /// The register-to-register instructions, class 8.
    fn exec_alu(&mut self, op_code: &OpCode) -> (r: Result<(), ChipError>)
        requires
            op_code.x < 16,
            op_code.y < 16,
        ensures
            match alu(old(self)@, *op_code) {
                Ok(m) => r == Ok::<(), ChipError>(()) && final(self)@ == m,
                Err(e) => r == Err::<(), ChipError>(e) && final(self)@ == old(self)@,
            },
    {
        let vx = self.get_vx(op_code);
        let vy = self.get_vy(op_code);
        let src = if self.shift_uses_vx {
            vx
        } else {
            vy
        };
        match op_code.n {
            0x0 => self.set_vx(op_code, vy),
            0x1 => self.set_vx(op_code, vx | vy),
            0x2 => self.set_vx(op_code, vx & vy),
            0x3 => self.set_vx(op_code, vx ^ vy),
            0x4 => {
                let sum = vx.wrapping_add(vy);
                self.set_vx(op_code, sum);
                self.set_carry(sum < vx);
            },
            0x5 => {
                self.set_vx(op_code, vx.wrapping_sub(vy));
                self.set_carry(vx > vy);
            },
            0x7 => {
                self.set_vx(op_code, vy.wrapping_sub(vx));
                self.set_carry(vy > vx);
            },
            0x6 => {
                self.set_vx(op_code, src >> 1);
                self.set_carry(src & 1 != 0);
            },
            0xE => {
                self.set_vx(op_code, src << 1);
                self.set_carry(src & 0x80 != 0);
            },
            _ => {
                return Err(ChipError::UnknownOpcode(*op_code));
            },
        }
        Ok(())
    }

    /// The index of the lowest pressed key, or 16 where none is pressed.
    fn first_pressed_key(&self) -> (r: u8)
        ensures
            r as int == first_pressed(self@.keypad, 0),
    {
        let mut k: u8 = 0;
        while k < 16
            invariant
                0 <= k <= 16,
                first_pressed(self@.keypad, 0) == first_pressed(self@.keypad, k as int),
            decreases 16 - k,
        {
            if self.keypad[k as usize] {
                return k;
            }
            k += 1;
        }
        16
    }

    /// The timer, keypad, font and memory instructions, class F.
    fn exec_misc(&mut self, op_code: &OpCode) -> (r: Result<(), ChipError>)
        requires
            op_code.x < 16,
        ensures
            match misc(old(self)@, *op_code) {
                Ok(m) => r == Ok::<(), ChipError>(()) && final(self)@ == m,
                Err(e) => r == Err::<(), ChipError>(e) && final(self)@ == old(self)@,
            },
    {
        let vx = self.get_vx(op_code);
        match op_code.nn {
            0x07 => {
                let t = self.delay_timer;
                self.set_vx(op_code, t);
            },
            0x15 => self.delay_timer = vx,
            0x18 => self.sound_timer = vx,
            0x1E => self.i = self.i.wrapping_add(vx as u16),
            0x0A => {
                let k = self.first_pressed_key();
                if k < 16 {
                    self.set_vx(op_code, k);
                } else {
                    self.pc = self.pc.wrapping_sub(2);
                }
            },
            0x29 => self.i = 0x50 + 5 * ((vx & 0xF) as u16),
            0x33 => {
                let base = self.i as usize;
                if base + 2 >= 4096 {
                    return Err(ChipError::MemoryOutOfBounds);
                }
                self.ram[base] = vx / 100;
                self.ram[base + 1] = (vx % 100) / 10;
                self.ram[base + 2] = vx % 10;
                assert(self@.ram =~= old(self)@.ram.update(base as int, vx / 100).update(
                    base + 1,
                    (vx % 100) / 10,
                ).update(base + 2, vx % 10));
            },
            0x55 => {
                let base = self.i as usize;
                let last = op_code.x as usize;
                if base + last >= 4096 {
                    return Err(ChipError::MemoryOutOfBounds);
                }
                let mut k: usize = 0;
                while k <= last
                    invariant
                        0 <= k <= last + 1,
                        last < 16,
                        base + last < 4096,
                        base == old(self).i,
                        forall|a: int|
                            0 <= a < 4096 ==> #[trigger] self.ram[a] == if base <= a < base + k {
                                old(self).v[a - base]
                            } else {
                                old(self).ram[a]
                            },
                        self.display == old(self).display,
                        self.pc == old(self).pc,
                        self.i == old(self).i,
                        self.stack == old(self).stack,
                        self.delay_timer == old(self).delay_timer,
                        self.sound_timer == old(self).sound_timer,
                        self.v == old(self).v,
                        self.keypad == old(self).keypad,
                        self.shift_uses_vx == old(self).shift_uses_vx,
                    decreases last + 1 - k,
                {
                    self.ram[base + k] = self.v[k];
                    k += 1;
                }
                assert(self@.ram =~= crate::semantics::dumped(old(self)@, last as int));
            },
            0x65 => {
                let base = self.i as usize;
                let last = op_code.x as usize;
                if base + last >= 4096 {
                    return Err(ChipError::MemoryOutOfBounds);
                }
                let mut k: usize = 0;
                while k <= last
                    invariant
                        0 <= k <= last + 1,
                        last < 16,
                        base + last < 4096,
                        base == old(self).i,
                        forall|j: int|
                            0 <= j < 16 ==> #[trigger] self.v[j] == if j < k {
                                old(self).ram[base + j]
                            } else {
                                old(self).v[j]
                            },
                        self.display == old(self).display,
                        self.pc == old(self).pc,
                        self.i == old(self).i,
                        self.stack == old(self).stack,
                        self.delay_timer == old(self).delay_timer,
                        self.sound_timer == old(self).sound_timer,
                        self.ram == old(self).ram,
                        self.keypad == old(self).keypad,
                        self.shift_uses_vx == old(self).shift_uses_vx,
                    decreases last + 1 - k,
                {
                    self.v[k] = self.ram[base + k];
                    k += 1;
                }
                assert(self@.v =~= crate::semantics::loaded(old(self)@, last as int));
            },
            _ => {
                return Err(ChipError::UnknownOpcode(*op_code));
            },
        }
        Ok(())
    }

    /// Draws the sprite of `op_code` by XOR, clipped at the edges, and sets
    /// `VF` to whether a pixel was turned off.
    fn exec_draw(&mut self, op_code: &OpCode) -> (r: Result<(), ChipError>)
        requires
            op_code.x < 16,
            op_code.y < 16,
        ensures
            sprite_in_memory(old(self)@, *op_code) ==> r == Ok::<(), ChipError>(())
                && final(self)@ == drawn(old(self)@, *op_code),
            !sprite_in_memory(old(self)@, *op_code) ==> r == Err::<(), ChipError>(
                ChipError::MemoryOutOfBounds,
            ) && final(self)@ == old(self)@,
    {
        let ghost pre = self@;
        let op = *op_code;
        let vx = self.get_vx(op_code);
        let vy = self.get_vy(op_code);
        let sx: usize = (vx % 64) as usize;
        let sy: usize = (vy % 32) as usize;
        let rows: usize = if (op_code.n as usize) < 32 - sy {
            op_code.n as usize
        } else {
            32 - sy
        };
        assert(sx == origin_x(pre, op) && sy == origin_y(pre, op) && rows == visible_rows(pre, op));
        let base = self.i as usize;
        if rows > 0 && base + rows > 4096 {
            return Err(ChipError::MemoryOutOfBounds);
        }
        let cols: usize = if 8 < 64 - sx {
            8
        } else {
            64 - sx
        };
        let mut collision = false;
        let mut row: usize = 0;
        while row < rows
            invariant
                0 <= row <= rows,
                rows == visible_rows(pre, op),
                sx == origin_x(pre, op),
                sy == origin_y(pre, op),
                cols == if 8 < 64 - sx { 8 } else { 64 - sx },
                base == pre.i,
                rows == 0 || base + rows <= 4096,
                op == *op_code,
                pre.wf(),
                self@.wf(),
                self@ == (MachineView { display: self@.display, ..pre }),
                forall|c: int, r: int|
                    0 <= c < 64 && 0 <= r < 32 ==> #[trigger] self@.display[c][r] == (pre.display[c][r]
                        != covered_before(pre, op, c, r, sy + row, 0)),
                collision == collides_before(pre, op, sy + row, 0),
            decreases rows - row,
        {
            let y = sy + row;
            let sprite = self.ram[base + row];
            proof {
                if collision {
                    let (c, r) = choose|c: int, r: int|
                        0 <= c < 64 && 0 <= r < 32 && pre.display[c][r]
                            && #[trigger] covered_before(pre, op, c, r, y as int, 0);
                    assert(covered_before(pre, op, c, r, y as int, sx as int));
                } else if collides_before(pre, op, y as int, sx as int) {
                    let (c, r) = choose|c: int, r: int|
                        0 <= c < 64 && 0 <= r < 32 && pre.display[c][r]
                            && #[trigger] covered_before(pre, op, c, r, y as int, sx as int);
                    assert(covered_before(pre, op, c, r, y as int, 0));
                }
                assert forall|c: int, r: int|
                    0 <= c < 64 && 0 <= r < 32 implies #[trigger] self@.display[c][r] == (
                    pre.display[c][r] != covered_before(pre, op, c, r, y as int, sx as int)) by {
                    assert(covered_before(pre, op, c, r, y as int, sx as int) == covered_before(
                        pre,
                        op,
                        c,
                        r,
                        y as int,
                        0,
                    ));
                }
            }
            let mut col: usize = 0;
            while col < cols
                invariant
                    0 <= col <= cols,
                    0 <= row < rows,
                    y == sy + row,
                    y < 32,
                    rows == visible_rows(pre, op),
                    sx == origin_x(pre, op),
                    sy == origin_y(pre, op),
                    cols == if 8 < 64 - sx { 8 } else { 64 - sx },
                    base == pre.i,
                    sprite == pre.ram[base + row],
                    op == *op_code,
                    pre.wf(),
                    self@.wf(),
                    self@ == (MachineView { display: self@.display, ..pre }),
                    forall|c: int, r: int|
                        0 <= c < 64 && 0 <= r < 32 ==> #[trigger] self@.display[c][r] == (
                        pre.display[c][r] != covered_before(pre, op, c, r, y as int, sx + col)),
                    collision == collides_before(pre, op, y as int, sx + col),
                decreases cols - col,
            {
                let x = sx + col;
                let old_pixel = self.display[x][y];
                let bit = (sprite >> ((7 - col) as u8)) & 1 == 1;
                proof {
                    assert(bit == sprite_bit(sprite, col as int));
                    assert(bit == sprite_covers(pre, op, x as int, y as int));
                    assert(old_pixel == self@.display[x as int][y as int]);
                    assert(!covered_before(pre, op, x as int, y as int, y as int, x as int));
                }
                self.set_pixel(x, y, old_pixel != bit);
                if old_pixel && bit {
                    collision = true;
                }
                proof {
                    assert forall|c: int, r: int|
                        0 <= c < 64 && 0 <= r < 32 implies #[trigger] self@.display[c][r] == (
                        pre.display[c][r] != covered_before(pre, op, c, r, y as int, x + 1)) by {
                        if c == x && r == y {
                        } else {
                            assert(covered_before(pre, op, c, r, y as int, x + 1) == covered_before(
                                pre,
                                op,
                                c,
                                r,
                                y as int,
                                x as int,
                            ));
                        }
                    }
                    if collides_before(pre, op, y as int, x as int) {
                        let (c, r) = choose|c: int, r: int|
                            0 <= c < 64 && 0 <= r < 32 && pre.display[c][r]
                                && #[trigger] covered_before(pre, op, c, r, y as int, x as int);
                        assert(covered_before(pre, op, c, r, y as int, x + 1));
                    }
                    if old_pixel && bit {
                        assert(covered_before(pre, op, x as int, y as int, y as int, x + 1));
                    } else if collides_before(pre, op, y as int, x + 1) {
                        let (c, r) = choose|c: int, r: int|
                            0 <= c < 64 && 0 <= r < 32 && pre.display[c][r]
                                && #[trigger] covered_before(pre, op, c, r, y as int, x + 1);
                        assert(covered_before(pre, op, c, r, y as int, x as int));
                    }
                }
                col += 1;
            }
            proof {
                assert forall|c: int, r: int|
                    0 <= c < 64 && 0 <= r < 32 implies #[trigger] covered_before(pre, op, c, r, y as int, sx + cols)
                    == covered_before(pre, op, c, r, y + 1, 0) by {}
                if collision {
                    let (c, r) = choose|c: int, r: int|
                        0 <= c < 64 && 0 <= r < 32 && pre.display[c][r]
                            && #[trigger] covered_before(pre, op, c, r, y as int, sx + cols);
                    assert(covered_before(pre, op, c, r, y + 1, 0));
                } else if collides_before(pre, op, y + 1, 0) {
                    let (c, r) = choose|c: int, r: int|
                        0 <= c < 64 && 0 <= r < 32 && pre.display[c][r]
                            && #[trigger] covered_before(pre, op, c, r, y + 1, 0);
                    assert(covered_before(pre, op, c, r, y as int, sx + cols));
                }
            }
            row += 1;
        }
        proof {
            assert forall|c: int, r: int|
                0 <= c < 64 && 0 <= r < 32 implies #[trigger] covered_before(pre, op, c, r, sy + rows, 0)
                == sprite_covers(pre, op, c, r) by {}
            if collision {
                let (c, r) = choose|c: int, r: int|
                    0 <= c < 64 && 0 <= r < 32 && pre.display[c][r]
                        && #[trigger] covered_before(pre, op, c, r, sy + rows, 0);
                assert(sprite_covers(pre, op, c, r));
            } else if collides(pre, op) {
                let (c, r) = choose|c: int, r: int|
                    0 <= c < 64 && 0 <= r < 32 && pre.display[c][r] && #[trigger] sprite_covers(
                        pre,
                        op,
                        c,
                        r,
                    );
                assert(covered_before(pre, op, c, r, sy + rows, 0));
            }
            assert(collision == collides(pre, op));
        }
        self.set_carry(collision);
        assert(self@.display =~~= drawn(pre, op).display);
        Ok(())
    }

    /// Executes one instruction, with `random_byte` as the byte that the
    /// random instruction draws. On an error nothing changes.
    pub fn execute_op_with_random(&mut self, op_code: OpCode, random_byte: u8) -> (r: Result<
        (),
        ChipError,
    >)
        requires
            op_code.x < 16,
            op_code.y < 16,
        ensures
            outcome(old(self)@, op_code, random_byte, r, final(self)@),
    {
        let vx = self.get_vx(&op_code);
        let vy = self.get_vy(&op_code);
        match op_code.op {
            0x0 => {
                match op_code.n {
                    0x0 => {
                        self.display = [[false; 32]; 64];
                        assert(self@.display =~~= crate::state::blank_display());
                    },
                    0xE => {
                        match self.stack.pop() {
                            Some(address) => self.pc = address,
                            None => {
                                return Err(ChipError::StackUnderflow);
                            },
                        }
                    },
                    _ => {
                        return Err(ChipError::UnknownOpcode(op_code));
                    },
                }
            },
            0x1 => self.pc = op_code.nnn,
            0x2 => {
                self.stack.push(self.pc);
                self.pc = op_code.nnn;
            },
            0x3 => {
                if vx == op_code.nn {
                    self.pc = self.pc.wrapping_add(2);
                }
            },
            0x4 => {
                if vx != op_code.nn {
                    self.pc = self.pc.wrapping_add(2);
                }
            },
            0x5 => {
                if vx == vy {
                    self.pc = self.pc.wrapping_add(2);
                }
            },
            0x9 => {
                if vx != vy {
                    self.pc = self.pc.wrapping_add(2);
                }
            },
            0x6 => self.set_vx(&op_code, op_code.nn),
            0x7 => self.set_vx(&op_code, vx.wrapping_add(op_code.nn)),
            0x8 => {
                return self.exec_alu(&op_code);
            },
            0xA => self.i = op_code.nnn,
            0xB => self.pc = op_code.nnn.wrapping_add(self.v[0] as u16),
            0xC => self.set_vx(&op_code, random_byte & op_code.nn),
            0xD => {
                return self.exec_draw(&op_code);
            },
            0xE => {
                match op_code.nn {
                    0x9E => {
                        if vx < 16 && self.keypad[vx as usize] {
                            self.pc = self.pc.wrapping_add(2);
                        }
                    },
                    0xA1 => {
                        if vx < 16 && !self.keypad[vx as usize] {
                            self.pc = self.pc.wrapping_add(2);
                        }
                    },
                    _ => {
                        return Err(ChipError::UnknownOpcode(op_code));
                    },
                }
            },
            0xF => {
                return self.exec_misc(&op_code);
            },
            _ => {
                return Err(ChipError::UnknownOpcode(op_code));
            },
        }
        Ok(())
    }

    /// Executes one instruction; the random instruction draws its byte from
    /// the thread-local generator. On an error nothing changes.
    pub fn execute_op(&mut self, op_code: OpCode) -> (r: Result<(), ChipError>)
        requires
            op_code.x < 16,
            op_code.y < 16,
        ensures
            exists|b: u8| outcome(old(self)@, op_code, b, r, final(self)@),
            op_code.op != 0xC ==> outcome(old(self)@, op_code, 0, r, final(self)@),
    {
        let b: u8 = if op_code.op == 0xC {
            random_byte()
        } else {
            0
        };
        self.execute_op_with_random(op_code, b)
    }
}

} // verus!
