//! The command set produced by the compiler, and the shape a well-compiled
//! command sequence has: every loop-opening jump points just past its
//! partner, and every loop-closing jump points just past its partner.

use vstd::prelude::*;

verus! {

/// One executable command.
///
/// The operands of `ChangeByte` and `ChangePointer` are accumulated at
/// compile time: a run of adjacent `+`/`-` source bytes becomes a single
/// `ChangeByte`, and a run of adjacent `<`/`>` bytes a single
/// `ChangePointer`.
#[derive(Clone, Copy, Debug, PartialEq, Eq, Structural)]
pub enum Command {
    /// Add the operand to the byte under the data pointer, wrapping at 256.
    ChangeByte(u8),
    /// Move the data pointer by the operand, wrapping modulo the tape length.
    ChangePointer(isize),
    /// Emit the byte under the data pointer.
    Output,
    /// Store one input byte in the cell under the data pointer.
    Input,
    /// If the byte under the data pointer is zero, jump to the target.
    JumpIfZero(usize),
    /// If the byte under the data pointer is non-zero, jump to the target.
    JumpIfNonZero(usize),
}

/// The single way compilation can fail: the loop brackets of the source do
/// not balance, by an unmatched `]` during the scan or an unmatched `[`
/// left over at its end.
#[derive(Clone, Copy, Debug, PartialEq, Eq, Structural)]
pub enum SyntaxError {
    UnbalancedBrackets,
}

/// Reduction of an accumulated byte delta into a single byte, wrapping at 256.
pub open spec fn wrap8(x: int) -> u8 {
    (x % 256) as u8
}

/// The jump-if-zero at `i` targets the slot just past its partner: some
/// jump-if-non-zero strictly after it whose own target is `i + 1`.
pub open spec fn jz_matched(cmds: Seq<Command>, i: int) -> bool {
    &&& cmds[i] is JumpIfZero
    &&& {
        let t = cmds[i]->JumpIfZero_0 as int;
        &&& i + 2 <= t <= cmds.len()
        &&& cmds[t - 1] == Command::JumpIfNonZero((i + 1) as usize)
    }
}

/// The jump-if-non-zero at `j` targets the slot just past its partner: some
/// jump-if-zero strictly before it whose own target is `j + 1`.
pub open spec fn jnz_matched(cmds: Seq<Command>, j: int) -> bool {
    &&& cmds[j] is JumpIfNonZero
    &&& {
        let t = cmds[j]->JumpIfNonZero_0 as int;
        &&& 1 <= t <= j
        &&& cmds[t - 1] == Command::JumpIfZero((j + 1) as usize)
    }
}

/// Every jump in the sequence is mutually paired with its partner.  This is
/// the invariant compilation establishes, and it keeps every jump target
/// within the sequence, so the program counter can never leave its range.
pub open spec fn brackets_paired(cmds: Seq<Command>) -> bool {
    &&& forall|i: int|
        0 <= i < cmds.len() && cmds[i] is JumpIfZero ==> #[trigger] jz_matched(cmds, i)
    &&& forall|j: int|
        0 <= j < cmds.len() && cmds[j] is JumpIfNonZero ==> #[trigger] jnz_matched(cmds, j)
}

} // verus!
