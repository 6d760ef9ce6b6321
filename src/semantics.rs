use vstd::prelude::*;

use crate::error::ChipError;
use crate::op_code::OpCode;
use crate::state::{
    advanced, blank_display, can_fetch, fetched, set_flag, set_reg, wrap16, wrap8, MachineView,
};

verus! {

/// `m` with the next instruction skipped when `c` holds.
pub open spec fn skip_if(m: MachineView, c: bool) -> MachineView {
    if c {
        MachineView { pc: wrap16(m.pc + 2), ..m }
    } else {
        m
    }
}

/// Bit `col` of a sprite row, counted from the most significant bit.
pub open spec fn sprite_bit(b: u8, col: int) -> bool {
    (b >> ((7 - col) as u8)) & 1u8 == 1u8
}

/// The column where a sprite starts: `Vx` modulo the width.
pub open spec fn origin_x(m: MachineView, op: OpCode) -> int {
    m.v[op.x as int] as int % 64
}

/// The row where a sprite starts: `Vy` modulo the height.
pub open spec fn origin_y(m: MachineView, op: OpCode) -> int {
    m.v[op.y as int] as int % 32
}

/// The sprite rows that fall on screen, and so are read from memory.
pub open spec fn visible_rows(m: MachineView, op: OpCode) -> int {
    if op.n < 32 - origin_y(m, op) {
        op.n as int
    } else {
        32 - origin_y(m, op)
    }
}

/// Whether every sprite row that is read lies in memory.
pub open spec fn sprite_in_memory(m: MachineView, op: OpCode) -> bool {
    visible_rows(m, op) == 0 || m.i + visible_rows(m, op) <= 4096
}

/// Whether the sprite of `op` has a set bit over pixel `(c, r)`. The sprite is
/// clipped at the edges: a pixel past the last column or row is never covered.
pub open spec fn sprite_covers(m: MachineView, op: OpCode, c: int, r: int) -> bool {
    let sx = origin_x(m, op);
    let sy = origin_y(m, op);
    &&& sx <= c < sx + 8
    &&& sy <= r < sy + op.n
    &&& sprite_bit(m.ram[m.i + (r - sy)], c - sx)
}

/// Whether drawing the sprite turns off a pixel that was on.
pub open spec fn collides(m: MachineView, op: OpCode) -> bool {
    exists|c: int, r: int|
        0 <= c < 64 && 0 <= r < 32 && m.display[c][r] && #[trigger] sprite_covers(m, op, c, r)
}

/// The state after the sprite of `op` is drawn by XOR, with `VF` telling of a collision.
pub open spec fn drawn(m: MachineView, op: OpCode) -> MachineView {
    let display = Seq::new(
        64,
        |c: int| Seq::new(32, |r: int| m.display[c][r] != sprite_covers(m, op, c, r)),
    );
    set_flag(MachineView { display, ..m }, collides(m, op))
}

/// The lowest pressed key at index `k` or above, or 16 where there is none.
pub open spec fn first_pressed(keys: Seq<bool>, k: int) -> int
    decreases 16 - k,
{
    if k >= 16 {
        16
    } else if keys[k] {
        k
    } else {
        first_pressed(keys, k + 1)
    }
}

/// Whether key `key` is a keypad index and pressed.
pub open spec fn key_pressed(m: MachineView, key: u8) -> bool {
    key < 16 && m.keypad[key as int]
}

/// Whether key `key` is a keypad index and not pressed.
pub open spec fn key_released(m: MachineView, key: u8) -> bool {
    key < 16 && !m.keypad[key as int]
}

/// The register-to-register instructions, class 8.
pub open spec fn alu(m: MachineView, op: OpCode) -> Result<MachineView, ChipError> {
    let x = op.x as int;
    let vx = m.v[x];
    let vy = m.v[op.y as int];
    let src = if m.shift_uses_vx {
        vx
    } else {
        vy
    };
    if op.n == 0x0 {
        Ok(set_reg(m, x, vy))
    } else if op.n == 0x1 {
        Ok(set_reg(m, x, vx | vy))
    } else if op.n == 0x2 {
        Ok(set_reg(m, x, vx & vy))
    } else if op.n == 0x3 {
        Ok(set_reg(m, x, vx ^ vy))
    } else if op.n == 0x4 {
        Ok(set_flag(set_reg(m, x, wrap8(vx + vy)), wrap8(vx + vy) < vx))
    } else if op.n == 0x5 {
        Ok(set_flag(set_reg(m, x, wrap8(vx - vy)), vx > vy))
    } else if op.n == 0x7 {
        Ok(set_flag(set_reg(m, x, wrap8(vy - vx)), vy > vx))
    } else if op.n == 0x6 {
        Ok(set_flag(set_reg(m, x, src >> 1u8), src & 1u8 != 0))
    } else if op.n == 0xE {
        Ok(set_flag(set_reg(m, x, src << 1u8), src & 0x80u8 != 0))
    } else {
        Err(ChipError::UnknownOpcode(op))
    }
}

/// Memory with `V0..=Vx` stored from the index register on.
pub open spec fn dumped(m: MachineView, x: int) -> Seq<u8> {
    Seq::new(
        m.ram.len(),
        |a: int|
            if m.i <= a <= m.i + x {
                m.v[a - m.i]
            } else {
                m.ram[a]
            },
    )
}

/// Registers with `V0..=Vx` loaded from the index register on.
pub open spec fn loaded(m: MachineView, x: int) -> Seq<u8> {
    Seq::new(
        m.v.len(),
        |j: int|
            if j <= x {
                m.ram[m.i + j]
            } else {
                m.v[j]
            },
    )
}

/// The timer, keypad, font and memory instructions, class F.
pub open spec fn misc(m: MachineView, op: OpCode) -> Result<MachineView, ChipError> {
    let x = op.x as int;
    let vx = m.v[x];
    if op.nn == 0x07 {
        Ok(set_reg(m, x, m.delay_timer))
    } else if op.nn == 0x15 {
        Ok(MachineView { delay_timer: vx, ..m })
    } else if op.nn == 0x18 {
        Ok(MachineView { sound_timer: vx, ..m })
    } else if op.nn == 0x1E {
        Ok(MachineView { i: wrap16(m.i + vx), ..m })
    } else if op.nn == 0x0A {
        let k = first_pressed(m.keypad, 0);
        if k < 16 {
            Ok(set_reg(m, x, k as u8))
        } else {
            Ok(MachineView { pc: wrap16(m.pc - 2), ..m })
        }
    } else if op.nn == 0x29 {
        Ok(MachineView { i: (0x50 + 5 * (vx & 0xFu8)) as u16, ..m })
    } else if op.nn == 0x33 {
        if m.i + 2 < 4096 {
            let ram = m.ram.update(m.i as int, vx / 100).update(m.i + 1, (vx % 100) / 10).update(
                m.i + 2,
                vx % 10,
            );
            Ok(MachineView { ram, ..m })
        } else {
            Err(ChipError::MemoryOutOfBounds)
        }
    } else if op.nn == 0x55 {
        if m.i + x < 4096 {
            Ok(MachineView { ram: dumped(m, x), ..m })
        } else {
            Err(ChipError::MemoryOutOfBounds)
        }
    } else if op.nn == 0x65 {
        if m.i + x < 4096 {
            Ok(MachineView { v: loaded(m, x), ..m })
        } else {
            Err(ChipError::MemoryOutOfBounds)
        }
    } else {
        Err(ChipError::UnknownOpcode(op))
    }
}

/// What executing `op` does to `m`, where `rnd` is the byte that the random
/// instruction draws: the new state, or the fatal error.
pub open spec fn step(m: MachineView, op: OpCode, rnd: u8) -> Result<MachineView, ChipError> {
    let vx = m.v[op.x as int];
    let vy = m.v[op.y as int];
    if op.op == 0x0 {
        if op.n == 0x0 {
            Ok(MachineView { display: blank_display(), ..m })
        } else if op.n == 0xE {
            if m.stack.len() == 0 {
                Err(ChipError::StackUnderflow)
            } else {
                Ok(MachineView { pc: m.stack.last(), stack: m.stack.drop_last(), ..m })
            }
        } else {
            Err(ChipError::UnknownOpcode(op))
        }
    } else if op.op == 0x1 {
        Ok(MachineView { pc: op.nnn, ..m })
    } else if op.op == 0x2 {
        Ok(MachineView { pc: op.nnn, stack: m.stack.push(m.pc), ..m })
    } else if op.op == 0x3 {
        Ok(skip_if(m, vx == op.nn))
    } else if op.op == 0x4 {
        Ok(skip_if(m, vx != op.nn))
    } else if op.op == 0x5 {
        Ok(skip_if(m, vx == vy))
    } else if op.op == 0x9 {
        Ok(skip_if(m, vx != vy))
    } else if op.op == 0x6 {
        Ok(set_reg(m, op.x as int, op.nn))
    } else if op.op == 0x7 {
        Ok(set_reg(m, op.x as int, wrap8(vx + op.nn)))
    } else if op.op == 0x8 {
        alu(m, op)
    } else if op.op == 0xA {
        Ok(MachineView { i: op.nnn, ..m })
    } else if op.op == 0xB {
        Ok(MachineView { pc: wrap16(op.nnn + m.v[0]), ..m })
    } else if op.op == 0xC {
        Ok(set_reg(m, op.x as int, rnd & op.nn))
    } else if op.op == 0xD {
        if sprite_in_memory(m, op) {
            Ok(drawn(m, op))
        } else {
            Err(ChipError::MemoryOutOfBounds)
        }
    } else if op.op == 0xE {
        if op.nn == 0x9E {
            Ok(skip_if(m, key_pressed(m, vx)))
        } else if op.nn == 0xA1 {
            Ok(skip_if(m, key_released(m, vx)))
        } else {
            Err(ChipError::UnknownOpcode(op))
        }
    } else if op.op == 0xF {
        misc(m, op)
    } else {
        Err(ChipError::UnknownOpcode(op))
    }
}

/// `r` and `post` are what executing `op` on `pre` gives: on an error the
/// state is left as it was.
pub open spec fn outcome(
    pre: MachineView,
    op: OpCode,
    rnd: u8,
    r: Result<(), ChipError>,
    post: MachineView,
) -> bool {
    match step(pre, op, rnd) {
        Ok(m) => r == Ok::<(), ChipError>(()) && post == m,
        Err(e) => r == Err::<(), ChipError>(e) && post == pre,
    }
}

/// The instruction `FX55`: store `V0..=Vx` from the index register on.
pub open spec fn dump_op(x: u8) -> OpCode {
    OpCode::decoded((0xF0 + x) as u8, 0x55)
}

/// The instruction `FX65`: load `V0..=Vx` from the index register on.
pub open spec fn load_op(x: u8) -> OpCode {
    OpCode::decoded((0xF0 + x) as u8, 0x65)
}

/// Register dump and load round trip: storing `V0..=Vx` and then loading
/// them, into this machine or into any other whose memory and index register
/// are those after the store, gives back `V0..=Vx`.
pub proof fn lemma_dump_load_round_trip(m: MachineView, other: MachineView, x: u8, rnd: u8)
    requires
        m.wf(),
        other.wf(),
        x < 16,
        m.i + x < 4096,
        step(m, dump_op(x), rnd) is Ok,
        other.ram == step(m, dump_op(x), rnd)->Ok_0.ram,
        other.i == m.i,
    ensures
        step(m, dump_op(x), rnd) is Ok,
        step(other, load_op(x), rnd) is Ok,
        forall|j: int| 0 <= j <= x ==> #[trigger] step(other, load_op(x), rnd)->Ok_0.v[j] == m.v[j],
{
    assert(dump_op(x).op == 0xF && dump_op(x).x == x && dump_op(x).nn == 0x55);
    assert(load_op(x).op == 0xF && load_op(x).x == x && load_op(x).nn == 0x65);
}

/// Whether the sprite of `op` has a set bit on screen.
pub open spec fn shows_pixel(m: MachineView, op: OpCode) -> bool {
    exists|c: int, r: int| 0 <= c < 64 && 0 <= r < 32 && #[trigger] sprite_covers(m, op, c, r)
}

/// Draw collision: a sprite drawn on a blank screen reports no collision;
/// drawn again at the same place (neither coordinate in `VF`) it blanks the
/// screen again, and reports a collision exactly when it has a pixel on
/// screen.
pub proof fn lemma_draw_twice(m: MachineView, op: OpCode, rnd: u8)
    requires
        m.wf(),
        op.op == 0xD,
        op.x < 15,
        op.y < 15,
        m.display == blank_display(),
        sprite_in_memory(m, op),
    ensures
        step(m, op, rnd) is Ok,
        step(m, op, rnd)->Ok_0.v[15] == 0,
        step(step(m, op, rnd)->Ok_0, op, rnd) is Ok,
        step(step(m, op, rnd)->Ok_0, op, rnd)->Ok_0.display == blank_display(),
        step(step(m, op, rnd)->Ok_0, op, rnd)->Ok_0.v[15] == if shows_pixel(m, op) {
            1u8
        } else {
            0u8
        },
{
    let m1 = drawn(m, op);
    assert(step(m, op, rnd) == Ok::<MachineView, ChipError>(m1));
    assert(!collides(m, op));
    assert(m1.v[op.x as int] == m.v[op.x as int] && m1.v[op.y as int] == m.v[op.y as int]);
    assert forall|c: int, r: int| 0 <= c < 64 && 0 <= r < 32 implies #[trigger] sprite_covers(
        m1,
        op,
        c,
        r,
    ) == sprite_covers(m, op, c, r) && m1.display[c][r] == sprite_covers(m, op, c, r) by {}
    assert(visible_rows(m1, op) == visible_rows(m, op));
    let m2 = drawn(m1, op);
    assert(step(m1, op, rnd) == Ok::<MachineView, ChipError>(m2));
    assert(m2.display =~~= blank_display());
    if shows_pixel(m, op) {
        let (c, r) = choose|c: int, r: int| 0 <= c < 64 && 0 <= r < 32 && #[trigger] sprite_covers(m, op, c, r);
        assert(sprite_covers(m1, op, c, r));
        assert(collides(m1, op));
    } else if collides(m1, op) {
        let (c, r) = choose|c: int, r: int|
            0 <= c < 64 && 0 <= r < 32 && m1.display[c][r] && #[trigger] sprite_covers(m1, op, c, r);
        assert(sprite_covers(m, op, c, r));
    }
}

/// Clipping: drawing changes no pixel outside the eight columns and `n` rows
/// that start at the sprite's origin; a sprite that reaches past the right or
/// bottom edge is cut there, never wrapped round to column or row 0.
pub proof fn lemma_draw_clips(m: MachineView, op: OpCode, rnd: u8)
    requires
        m.wf(),
        op.op == 0xD,
        op.x < 16,
        op.y < 16,
        sprite_in_memory(m, op),
    ensures
        step(m, op, rnd) is Ok,
        forall|c: int, r: int|
            0 <= c < 64 && 0 <= r < 32 && !(origin_x(m, op) <= c < origin_x(m, op) + 8 && origin_y(
                m,
                op,
            ) <= r < origin_y(m, op) + op.n) ==> #[trigger] step(m, op, rnd)->Ok_0.display[c][r]
                == m.display[c][r],
{
}

/// Key wait: with no key pressed, fetching and executing "wait for key"
/// leaves the machine exactly as it was before the fetch, so the same
/// instruction comes again; with a key pressed, `Vx` takes the lowest pressed
/// key and the program counter stays past the instruction.
pub proof fn lemma_key_wait(m: MachineView, rnd: u8)
    requires
        m.wf(),
        can_fetch(m),
        fetched(m).op == 0xF,
        fetched(m).nn == 0x0A,
    ensures
        (forall|k: int| 0 <= k < 16 ==> !#[trigger] m.keypad[k]) ==> step(advanced(m), fetched(m), rnd)
            == Ok::<MachineView, ChipError>(m),
        forall|k: int|
            0 <= k < 16 && #[trigger] m.keypad[k] && (forall|j: int| 0 <= j < k ==> !m.keypad[j])
                ==> step(advanced(m), fetched(m), rnd) == Ok::<MachineView, ChipError>(
                set_reg(advanced(m), fetched(m).x as int, k as u8),
            ),
{
    let op = fetched(m);
    assert(op.x < 16);
    lemma_first_pressed(m.keypad, 0);
    if forall|k: int| 0 <= k < 16 ==> !#[trigger] m.keypad[k] {
        assert(first_pressed(m.keypad, 0) == 16);
        assert(wrap16(advanced(m).pc - 2) == m.pc);
    }
}

/// `first_pressed` is the lowest pressed key at `from` or above, or 16.
pub proof fn lemma_first_pressed(keys: Seq<bool>, from: int)
    requires
        keys.len() == 16,
        0 <= from <= 16,
    ensures
        from <= first_pressed(keys, from) <= 16,
        first_pressed(keys, from) < 16 ==> keys[first_pressed(keys, from)],
        forall|j: int| from <= j < first_pressed(keys, from) ==> !#[trigger] keys[j],
    decreases 16 - from,
{
    if from < 16 {
        lemma_first_pressed(keys, from + 1);
    }
}

} // verus!
