//! The compiler: a left-to-right scan of the source bytes that folds runs
//! of adjacent arithmetic operations into single commands and matches loop
//! brackets through a stack of pending loop-open positions.

use vstd::prelude::*;

use crate::command::{brackets_paired, jnz_matched, jz_matched, wrap8, Command, SyntaxError};

verus! {

/// Fold a byte delta into the sequence: add it to a trailing `ChangeByte`,
/// wrapping at 256, or append a fresh one.
pub open spec fn fuse_byte(cmds: Seq<Command>, d: u8) -> Seq<Command> {
    if cmds.len() > 0 && cmds.last() is ChangeByte {
        cmds.update(cmds.len() - 1, Command::ChangeByte(wrap8(cmds.last()->ChangeByte_0 + d)))
    } else {
        cmds.push(Command::ChangeByte(d))
    }
}

/// Fold a pointer delta into the sequence: add it to a trailing
/// `ChangePointer` or append a fresh one.
pub open spec fn fuse_move(cmds: Seq<Command>, d: int) -> Seq<Command> {
    if cmds.len() > 0 && cmds.last() is ChangePointer {
        cmds.update(cmds.len() - 1, Command::ChangePointer((cmds.last()->ChangePointer_0 + d) as isize))
    } else {
        cmds.push(Command::ChangePointer(d as isize))
    }
}

/// The scan from position `i` to the end of the source, continuing from the
/// commands built and the loop-open positions pending so far.  `None` is a
/// failed compilation: a `]` with nothing pending, or something still
/// pending at the end of the source.
pub open spec fn scan(src: Seq<u8>, i: int, cmds: Seq<Command>, stack: Seq<usize>) -> Option<
    Seq<Command>,
>
    decreases src.len() - i,
{
    if i < 0 || i >= src.len() {
        if stack.len() == 0 {
            Some(cmds)
        } else {
            None
        }
    } else {
        let b = src[i];
        if b == 43 || b == 45 {  // '+' or '-'
            let d: u8 = if b == 43 {
                1
            } else {
                255
            };
            scan(src, i + 1, fuse_byte(cmds, d), stack)
        } else if b == 62 || b == 60 {  // '>' or '<'
            let d: int = if b == 62 {
                1
            } else {
                -1
            };
            scan(src, i + 1, fuse_move(cmds, d), stack)
        } else if b == 91 {  // '['
            scan(src, i + 1, cmds.push(Command::JumpIfZero(0)), stack.push(cmds.len() as usize))
        } else if b == 93 {  // ']'
            if stack.len() == 0 {
                None
            } else {
                let open = stack.last() as int;
                let patched = cmds.update(open, Command::JumpIfZero((cmds.len() + 1) as usize));
                scan(
                    src,
                    i + 1,
                    patched.push(Command::JumpIfNonZero((open + 1) as usize)),
                    stack.drop_last(),
                )
            }
        } else if b == 46 {  // '.'
            scan(src, i + 1, cmds.push(Command::Output), stack)
        } else if b == 44 {  // ','
            scan(src, i + 1, cmds.push(Command::Input), stack)
        } else {
            scan(src, i + 1, cmds, stack)
        }
    }
}

/// What compiling a whole source yields: the scan started from nothing.
pub open spec fn compile_spec(src: Seq<u8>) -> Option<Seq<Command>> {
    scan(src, 0, Seq::empty(), Seq::empty())
}

/// The running bracket balance of `src[i..j)`: loop-opens minus loop-closes.
pub open spec fn bal(src: Seq<u8>, i: int, j: int) -> int
    decreases j - i,
{
    if i < 0 || i >= j {
        0
    } else {
        (if src[i] == 91 {
            1int
        } else if src[i] == 93 {
            -1int
        } else {
            0int
        }) + bal(src, i + 1, j)
    }
}

/// The brackets of the source balance: no prefix closes more loops than it
/// has opened, and the whole source closes every loop it opens.
pub open spec fn brackets_balanced(src: Seq<u8>) -> bool {
    &&& forall|j: int| 0 <= j <= src.len() ==> #[trigger] bal(src, 0, j) >= 0
    &&& bal(src, 0, src.len() as int) == 0
}

/// Some entry of the pending stack is the position `i`.
spec fn stack_has(stack: Seq<usize>, i: int) -> bool {
    exists|k: int| 0 <= k < stack.len() && stack[k] as int == i
}

/// The invariant the scan maintains: the pending stack lists, in strictly
/// increasing order, exactly the placeholder loop-opens not yet patched;
/// every other jump-if-zero and every jump-if-non-zero is already paired.
spec fn scan_wf(cmds: Seq<Command>, stack: Seq<usize>) -> bool {
    &&& forall|k: int|
        0 <= k < stack.len() ==> (#[trigger] stack[k]) < cmds.len() && cmds[stack[k] as int]
            == Command::JumpIfZero(0)
    &&& forall|k1: int, k2: int|
        #![trigger stack[k1], stack[k2]]
        0 <= k1 < k2 < stack.len() ==> stack[k1] < stack[k2]
    &&& forall|i: int|
        0 <= i < cmds.len() && cmds[i] is JumpIfZero && !stack_has(stack, i)
            ==> #[trigger] jz_matched(cmds, i)
    &&& forall|j: int|
        0 <= j < cmds.len() && cmds[j] is JumpIfNonZero ==> #[trigger] jnz_matched(cmds, j)
}

/// Appending a command that is no jump keeps the scan invariant.
proof fn lemma_wf_append(cmds: Seq<Command>, stack: Seq<usize>, c: Command)
    requires
        scan_wf(cmds, stack),
        !(c is JumpIfZero),
        !(c is JumpIfNonZero),
    ensures
        scan_wf(cmds.push(c), stack),
{
    let cmds2 = cmds.push(c);
    assert forall|i: int|
        0 <= i < cmds2.len() && cmds2[i] is JumpIfZero && !stack_has(stack, i)
            implies #[trigger] jz_matched(cmds2, i) by {
        assert(jz_matched(cmds, i));
    }
    assert forall|j: int|
        0 <= j < cmds2.len() && cmds2[j] is JumpIfNonZero implies #[trigger] jnz_matched(
        cmds2,
        j,
    ) by {
        assert(jnz_matched(cmds, j));
    }
}

/// Replacing a trailing arithmetic command by another non-jump command
/// keeps the scan invariant.
proof fn lemma_wf_update_last(cmds: Seq<Command>, stack: Seq<usize>, c: Command)
    requires
        scan_wf(cmds, stack),
        cmds.len() > 0,
        cmds.last() is ChangeByte || cmds.last() is ChangePointer,
        !(c is JumpIfZero),
        !(c is JumpIfNonZero),
    ensures
        scan_wf(cmds.update(cmds.len() - 1, c), stack),
{
    let u = cmds.len() - 1;
    let cmds2 = cmds.update(u, c);
    assert forall|k: int|
        0 <= k < stack.len() implies (#[trigger] stack[k]) < cmds2.len() && cmds2[stack[k] as int]
            == Command::JumpIfZero(0) by {
        assert(cmds[stack[k] as int] == Command::JumpIfZero(0));
        assert(stack[k] as int != u);
    }
    assert forall|i: int|
        0 <= i < cmds2.len() && cmds2[i] is JumpIfZero && !stack_has(stack, i)
            implies #[trigger] jz_matched(cmds2, i) by {
        assert(i != u);
        assert(jz_matched(cmds, i));
        let t = cmds[i]->JumpIfZero_0 as int;
        assert(cmds[t - 1] is JumpIfNonZero);
        assert(t - 1 != u);
    }
    assert forall|j: int|
        0 <= j < cmds2.len() && cmds2[j] is JumpIfNonZero implies #[trigger] jnz_matched(
        cmds2,
        j,
    ) by {
        assert(j != u);
        assert(jnz_matched(cmds, j));
        let t = cmds[j]->JumpIfNonZero_0 as int;
        assert(cmds[t - 1] is JumpIfZero);
        assert(t - 1 != u);
    }
}

/// Opening a loop appends a placeholder and records its position: the scan
/// invariant is kept.
proof fn lemma_wf_open(cmds: Seq<Command>, stack: Seq<usize>)
    requires
        scan_wf(cmds, stack),
        cmds.len() < usize::MAX,
    ensures
        scan_wf(cmds.push(Command::JumpIfZero(0)), stack.push(cmds.len() as usize)),
{
    let cmds2 = cmds.push(Command::JumpIfZero(0));
    let stack2 = stack.push(cmds.len() as usize);
    assert forall|i: int|
        0 <= i < cmds2.len() && cmds2[i] is JumpIfZero && !stack_has(stack2, i)
            implies #[trigger] jz_matched(cmds2, i) by {
        if i < cmds.len() {
            assert forall|k: int| 0 <= k < stack.len() && stack[k] as int == i implies false by {
                assert(stack2[k] as int == i);
            }
            assert(jz_matched(cmds, i));
        } else {
            assert(stack2[stack.len() as int] as int == i);
        }
    }
    assert forall|j: int|
        0 <= j < cmds2.len() && cmds2[j] is JumpIfNonZero implies #[trigger] jnz_matched(
        cmds2,
        j,
    ) by {
        assert(jnz_matched(cmds, j));
    }
}

/// Closing a loop patches the most recent placeholder and appends its
/// partner: the two now point just past one another, and the scan
/// invariant is kept for the shortened stack.
proof fn lemma_wf_close(cmds: Seq<Command>, stack: Seq<usize>)
    requires
        scan_wf(cmds, stack),
        stack.len() > 0,
        cmds.len() + 1 < usize::MAX,
    ensures
        scan_wf(
            cmds.update(stack.last() as int, Command::JumpIfZero((cmds.len() + 1) as usize)).push(
                Command::JumpIfNonZero((stack.last() + 1) as usize),
            ),
            stack.drop_last(),
        ),
{
    let opened = stack.last() as int;
    let len = cmds.len() as int;
    let patched = cmds.update(opened, Command::JumpIfZero((cmds.len() + 1) as usize));
    let cmds2 = patched.push(Command::JumpIfNonZero((stack.last() + 1) as usize));
    let stack2 = stack.drop_last();
    assert(stack[stack.len() - 1] < cmds.len());
    assert(cmds[opened] == Command::JumpIfZero(0));
    assert forall|k: int|
        0 <= k < stack2.len() implies (#[trigger] stack2[k]) < cmds2.len() && cmds2[stack2[k] as int]
            == Command::JumpIfZero(0) by {
        assert(stack[k] == stack2[k]);
        assert(stack[k] < stack[stack.len() - 1]);
        assert(cmds[stack[k] as int] == Command::JumpIfZero(0));
    }
    assert forall|i: int|
        0 <= i < cmds2.len() && cmds2[i] is JumpIfZero && !stack_has(stack2, i)
            implies #[trigger] jz_matched(cmds2, i) by {
        if i == opened {
            assert(cmds2[len] == Command::JumpIfNonZero((opened + 1) as usize));
            assert(jz_matched(cmds2, i));
        } else if i < len {
            assert(!stack_has(stack, i)) by {
                if stack_has(stack, i) {
                    let k = choose|k: int| 0 <= k < stack.len() && stack[k] as int == i;
                    if k < stack.len() - 1 {
                        assert(stack2[k] as int == i);
                        assert(false);
                    } else {
                        assert(i == opened);
                        assert(false);
                    }
                }
            }
            assert(jz_matched(cmds, i));
            let t = cmds[i]->JumpIfZero_0 as int;
            assert(cmds[t - 1] is JumpIfNonZero);
            assert(t - 1 != opened);
            assert(jz_matched(cmds2, i));
        }
    }
    assert forall|j: int|
        0 <= j < cmds2.len() && cmds2[j] is JumpIfNonZero implies #[trigger] jnz_matched(
        cmds2,
        j,
    ) by {
        if j == len {
            assert(cmds2[opened] == Command::JumpIfZero((len + 1) as usize));
            assert(jnz_matched(cmds2, j));
        } else {
            assert(j != opened);
            assert(jnz_matched(cmds, j));
            let t = cmds[j]->JumpIfNonZero_0 as int;
            assert(cmds[t - 1] == Command::JumpIfZero((j + 1) as usize));
            assert(t - 1 != opened);
            assert(jnz_matched(cmds2, j));
        }
    }
}

/// The scan of a suffix, begun in a well-formed state, yields a sequence
/// whose brackets are mutually paired whenever it succeeds.
proof fn lemma_scan_paired(src: Seq<u8>, i: int, cmds: Seq<Command>, stack: Seq<usize>)
    requires
        0 <= i <= src.len(),
        cmds.len() + (src.len() - i) < usize::MAX,
        scan_wf(cmds, stack),
        scan(src, i, cmds, stack) is Some,
    ensures
        match scan(src, i, cmds, stack) {
            Some(out) => brackets_paired(out),
            None => true,
        },
    decreases src.len() - i,
{
    if i >= src.len() {
        assert forall|ii: int|
            0 <= ii < cmds.len() && cmds[ii] is JumpIfZero implies #[trigger] jz_matched(
            cmds,
            ii,
        ) by {
            assert(!stack_has(stack, ii));
        }
    } else {
        let b = src[i];
        if b == 43 || b == 45 {
            let d: u8 = if b == 43 {
                1
            } else {
                255
            };
            if cmds.len() > 0 && cmds.last() is ChangeByte {
                lemma_wf_update_last(
                    cmds,
                    stack,
                    Command::ChangeByte(wrap8(cmds.last()->ChangeByte_0 + d)),
                );
            } else {
                lemma_wf_append(cmds, stack, Command::ChangeByte(d));
            }
            lemma_scan_paired(src, i + 1, fuse_byte(cmds, d), stack);
        } else if b == 62 || b == 60 {
            let d: int = if b == 62 {
                1
            } else {
                -1
            };
            if cmds.len() > 0 && cmds.last() is ChangePointer {
                lemma_wf_update_last(
                    cmds,
                    stack,
                    Command::ChangePointer((cmds.last()->ChangePointer_0 + d) as isize),
                );
            } else {
                lemma_wf_append(cmds, stack, Command::ChangePointer(d as isize));
            }
            lemma_scan_paired(src, i + 1, fuse_move(cmds, d), stack);
        } else if b == 91 {
            lemma_wf_open(cmds, stack);
            lemma_scan_paired(
                src,
                i + 1,
                cmds.push(Command::JumpIfZero(0)),
                stack.push(cmds.len() as usize),
            );
        } else if b == 93 {
            lemma_wf_close(cmds, stack);
            let opened = stack.last() as int;
            let patched = cmds.update(opened, Command::JumpIfZero((cmds.len() + 1) as usize));
            lemma_scan_paired(
                src,
                i + 1,
                patched.push(Command::JumpIfNonZero((opened + 1) as usize)),
                stack.drop_last(),
            );
        } else if b == 46 {
            lemma_wf_append(cmds, stack, Command::Output);
            lemma_scan_paired(src, i + 1, cmds.push(Command::Output), stack);
        } else if b == 44 {
            lemma_wf_append(cmds, stack, Command::Input);
            lemma_scan_paired(src, i + 1, cmds.push(Command::Input), stack);
        } else {
            lemma_scan_paired(src, i + 1, cmds, stack);
        }
    }
}

/// Bracket pairing: in every successfully compiled sequence the pairing is
/// mutual and non-crossing — each jump-if-zero's target equals the index
/// of its paired jump-if-non-zero plus one, and vice versa.
pub proof fn lemma_compile_paired(src: Seq<u8>)
    requires
        src.len() < usize::MAX,
        compile_spec(src) is Some,
    ensures
        brackets_paired(compile_spec(src)->Some_0),
{
    lemma_scan_paired(src, 0, Seq::empty(), Seq::empty());
}

/// The contribution of one arithmetic source byte: `+1` for `+`, and `-1`
/// as a wrapping byte value (255) for `-`.
pub open spec fn byte_delta(b: u8) -> u8 {
    if b == 43 {
        1u8
    } else {
        255u8
    }
}

/// The algebraic sum of the byte deltas of `src[i..]`.
pub open spec fn byte_delta_sum(src: Seq<u8>, i: int) -> int
    decreases src.len() - i,
{
    if i < 0 || i >= src.len() {
        0
    } else {
        byte_delta(src[i]) + byte_delta_sum(src, i + 1)
    }
}

proof fn lemma_byte_delta_sum_nonneg(src: Seq<u8>, i: int)
    ensures
        byte_delta_sum(src, i) >= 0,
    decreases src.len() - i,
{
    if 0 <= i < src.len() {
        lemma_byte_delta_sum_nonneg(src, i + 1);
    }
}

/// Wrapping early never changes a wrapped non-negative sum.
proof fn lemma_wrap8_add(x: int, y: int)
    requires
        x >= 0,
        y >= 0,
    ensures
        wrap8(wrap8(x) + y) == wrap8(x + y),
{
    vstd::arithmetic::div_mod::lemma_fundamental_div_mod(x, 256);
    vstd::arithmetic::div_mod::lemma_mod_multiples_vanish(x / 256, x % 256 + y, 256);
}

/// The scan of a suffix of only `+`/`-` bytes, entered with a trailing
/// `ChangeByte`, folds the whole suffix into that one operand.
proof fn lemma_scan_pm(src: Seq<u8>, i: int, cmds: Seq<Command>)
    requires
        0 <= i <= src.len(),
        forall|k: int| i <= k < src.len() ==> src[k] == 43 || src[k] == 45,
        cmds.len() > 0,
        cmds.last() is ChangeByte,
    ensures
        scan(src, i, cmds, Seq::empty()) == Some(
            cmds.update(
                cmds.len() - 1,
                Command::ChangeByte(wrap8(cmds.last()->ChangeByte_0 + byte_delta_sum(src, i))),
            ),
        ),
    decreases src.len() - i,
{
    let v = cmds.last()->ChangeByte_0;
    if i >= src.len() {
        assert(wrap8(v as int) == v);
        assert(cmds.update(cmds.len() - 1, Command::ChangeByte(wrap8(v + 0))) =~= cmds);
    } else {
        let d = byte_delta(src[i]);
        let cmds2 = fuse_byte(cmds, d);
        lemma_scan_pm(src, i + 1, cmds2);
        lemma_byte_delta_sum_nonneg(src, i + 1);
        lemma_wrap8_add(v + d, byte_delta_sum(src, i + 1));
        assert(cmds2.update(
            cmds.len() - 1,
            Command::ChangeByte(wrap8(v + byte_delta_sum(src, i))),
        ) =~= cmds.update(cmds.len() - 1, Command::ChangeByte(wrap8(v + byte_delta_sum(src, i)))));
    }
}

/// Folding of arithmetic runs: a non-empty source of only `+` and `-`
/// bytes compiles to exactly one `ChangeByte` command, whose operand is
/// the wrapping sum of `+1` per `+` and `-1` per `-`, however long the
/// run is.
pub proof fn lemma_compile_folds_bytes(src: Seq<u8>)
    requires
        src.len() > 0,
        forall|k: int| 0 <= k < src.len() ==> src[k] == 43 || src[k] == 45,
    ensures
        compile_spec(src) == Some(seq![Command::ChangeByte(wrap8(byte_delta_sum(src, 0)))]),
{
    let d0 = byte_delta(src[0]);
    assert(fuse_byte(Seq::empty(), d0) =~= seq![Command::ChangeByte(d0)]);
    lemma_scan_pm(src, 1, seq![Command::ChangeByte(d0)]);
    assert(seq![Command::ChangeByte(d0)].update(
        0,
        Command::ChangeByte(wrap8(d0 + byte_delta_sum(src, 1))),
    ) =~= seq![Command::ChangeByte(wrap8(byte_delta_sum(src, 0)))]);
}

/// The contribution of one pointer-move source byte: `+1` for `>`, `-1`
/// for `<`.
pub open spec fn move_delta(b: u8) -> int {
    if b == 62 {
        1int
    } else {
        -1int
    }
}

/// The signed sum of the move deltas of `src[i..]`.
pub open spec fn move_delta_sum(src: Seq<u8>, i: int) -> int
    decreases src.len() - i,
{
    if i < 0 || i >= src.len() {
        0
    } else {
        move_delta(src[i]) + move_delta_sum(src, i + 1)
    }
}

proof fn lemma_move_delta_sum_bound(src: Seq<u8>, i: int)
    requires
        0 <= i <= src.len(),
    ensures
        -(src.len() - i) <= move_delta_sum(src, i) <= src.len() - i,
    decreases src.len() - i,
{
    if i < src.len() {
        lemma_move_delta_sum_bound(src, i + 1);
    }
}

/// The scan of a suffix of only `<`/`>` bytes, entered with a trailing
/// `ChangePointer` far enough from the ends of `isize`, folds the whole
/// suffix into that one operand.
proof fn lemma_scan_moves(src: Seq<u8>, i: int, cmds: Seq<Command>)
    requires
        0 <= i <= src.len(),
        forall|k: int| i <= k < src.len() ==> src[k] == 60 || src[k] == 62,
        cmds.len() > 0,
        cmds.last() is ChangePointer,
        cmds.last()->ChangePointer_0 + (src.len() - i) <= isize::MAX as int,
        cmds.last()->ChangePointer_0 - (src.len() - i) >= isize::MIN as int,
    ensures
        scan(src, i, cmds, Seq::empty()) == Some(
            cmds.update(
                cmds.len() - 1,
                Command::ChangePointer(
                    (cmds.last()->ChangePointer_0 + move_delta_sum(src, i)) as isize,
                ),
            ),
        ),
    decreases src.len() - i,
{
    let v = cmds.last()->ChangePointer_0;
    if i >= src.len() {
        assert(cmds.update(cmds.len() - 1, Command::ChangePointer((v as int + 0) as isize))
            =~= cmds);
    } else {
        let d = move_delta(src[i]);
        let cmds2 = fuse_move(cmds, d);
        lemma_scan_moves(src, i + 1, cmds2);
        lemma_move_delta_sum_bound(src, i + 1);
        assert(cmds2.update(
            cmds.len() - 1,
            Command::ChangePointer((v + move_delta_sum(src, i)) as isize),
        ) =~= cmds.update(
            cmds.len() - 1,
            Command::ChangePointer((v + move_delta_sum(src, i)) as isize),
        ));
    }
}

/// Folding of pointer-move runs: a non-empty source of only `<` and `>`
/// bytes compiles to exactly one `ChangePointer` command whose operand is
/// the signed sum of `+1` per `>` and `-1` per `<`.
pub proof fn lemma_compile_folds_moves(src: Seq<u8>)
    requires
        src.len() > 0,
        src.len() <= isize::MAX as int,
        forall|k: int| 0 <= k < src.len() ==> src[k] == 60 || src[k] == 62,
    ensures
        compile_spec(src) == Some(
            seq![Command::ChangePointer(move_delta_sum(src, 0) as isize)],
        ),
        move_delta_sum(src, 0) as isize as int == move_delta_sum(src, 0),
{
    let d0 = move_delta(src[0]);
    assert(fuse_move(Seq::empty(), d0) =~= seq![Command::ChangePointer(d0 as isize)]);
    lemma_scan_moves(src, 1, seq![Command::ChangePointer(d0 as isize)]);
    lemma_move_delta_sum_bound(src, 0);
    lemma_move_delta_sum_bound(src, 1);
    assert(seq![Command::ChangePointer(d0 as isize)].update(
        0,
        Command::ChangePointer((d0 + move_delta_sum(src, 1)) as isize),
    ) =~= seq![Command::ChangePointer(move_delta_sum(src, 0) as isize)]);
}

/// Compilation is a pure function of the source bytes: two successful
/// compilations of one source yield identical command sequences.
pub proof fn lemma_compile_deterministic(src: Seq<u8>, c1: Seq<Command>, c2: Seq<Command>)
    requires
        compile_spec(src) == Some(c1),
        compile_spec(src) == Some(c2),
    ensures
        c1 == c2,
{
}

/// One scanned byte shifts the balance bookkeeping by its own
/// contribution: continuing with the suffix and the adjusted depth is the
/// same as judging the whole range at the original depth.
proof fn lemma_bal_shift(src: Seq<u8>, i: int, d: int, d2: int)
    requires
        0 <= i < src.len(),
        d >= 0,
        d2 == d + (if src[i] == 91 {
            1int
        } else if src[i] == 93 {
            -1int
        } else {
            0int
        }),
    ensures
        ((forall|j: int| i <= j <= src.len() ==> d + #[trigger] bal(src, i, j) >= 0) && d + bal(
            src,
            i,
            src.len() as int,
        ) == 0) <==> ((forall|j: int|
            i + 1 <= j <= src.len() ==> d2 + #[trigger] bal(src, i + 1, j) >= 0) && d2 + bal(
            src,
            i + 1,
            src.len() as int,
        ) == 0),
{
    let hd: int = if src[i] == 91 {
        1
    } else if src[i] == 93 {
        -1
    } else {
        0
    };
    assert(bal(src, i, i) == 0);
    assert(bal(src, i, src.len() as int) == hd + bal(src, i + 1, src.len() as int));
    if forall|j: int| i + 1 <= j <= src.len() ==> d2 + #[trigger] bal(src, i + 1, j) >= 0 {
        assert forall|j: int| i <= j <= src.len() implies d + #[trigger] bal(src, i, j) >= 0 by {
            if j > i {
                assert(d2 + bal(src, i + 1, j) >= 0);
                assert(bal(src, i, j) == hd + bal(src, i + 1, j));
            } else {
                assert(bal(src, i, j) == 0);
            }
        }
    }
    if forall|j: int| i <= j <= src.len() ==> d + #[trigger] bal(src, i, j) >= 0 {
        assert forall|j: int| i + 1 <= j <= src.len() implies d2 + #[trigger] bal(
            src,
            i + 1,
            j,
        ) >= 0 by {
            assert(d + bal(src, i, j) >= 0);
            assert(bal(src, i, j) == hd + bal(src, i + 1, j));
        }
    }
}

/// The scan of a suffix succeeds exactly when, at the pending depth it
/// starts from, no prefix of the suffix drives the balance negative and
/// the whole suffix returns it to zero.
proof fn lemma_scan_some_iff(src: Seq<u8>, i: int, cmds: Seq<Command>, stack: Seq<usize>)
    requires
        0 <= i <= src.len(),
    ensures
        (scan(src, i, cmds, stack) is Some) <==> ((forall|j: int|
            i <= j <= src.len() ==> stack.len() + #[trigger] bal(src, i, j) >= 0) && stack.len()
            + bal(src, i, src.len() as int) == 0),
    decreases src.len() - i,
{
    if i >= src.len() {
        assert(bal(src, i, i) == 0);
    } else {
        let b = src[i];
        if b == 43 || b == 45 {
            let d: u8 = if b == 43 {
                1
            } else {
                255
            };
            lemma_scan_some_iff(src, i + 1, fuse_byte(cmds, d), stack);
            lemma_bal_shift(src, i, stack.len() as int, stack.len() as int);
        } else if b == 62 || b == 60 {
            let d: int = if b == 62 {
                1
            } else {
                -1
            };
            lemma_scan_some_iff(src, i + 1, fuse_move(cmds, d), stack);
            lemma_bal_shift(src, i, stack.len() as int, stack.len() as int);
        } else if b == 91 {
            lemma_scan_some_iff(
                src,
                i + 1,
                cmds.push(Command::JumpIfZero(0)),
                stack.push(cmds.len() as usize),
            );
            lemma_bal_shift(src, i, stack.len() as int, stack.len() as int + 1);
        } else if b == 93 {
            if stack.len() == 0 {
                assert(bal(src, i + 1, i + 1) == 0);
                assert(bal(src, i, i + 1) == -1);
            } else {
                let opened = stack.last() as int;
                let patched = cmds.update(opened, Command::JumpIfZero((cmds.len() + 1) as usize));
                lemma_scan_some_iff(
                    src,
                    i + 1,
                    patched.push(Command::JumpIfNonZero((opened + 1) as usize)),
                    stack.drop_last(),
                );
                lemma_bal_shift(src, i, stack.len() as int, stack.len() as int - 1);
            }
        } else if b == 46 {
            lemma_scan_some_iff(src, i + 1, cmds.push(Command::Output), stack);
            lemma_bal_shift(src, i, stack.len() as int, stack.len() as int);
        } else if b == 44 {
            lemma_scan_some_iff(src, i + 1, cmds.push(Command::Input), stack);
            lemma_bal_shift(src, i, stack.len() as int, stack.len() as int);
        } else {
            lemma_scan_some_iff(src, i + 1, cmds, stack);
            lemma_bal_shift(src, i, stack.len() as int, stack.len() as int);
        }
    }
}

/// Compilation succeeds exactly on the sources whose loop brackets
/// balance: an unmatched `]` (a prefix that closes more than it opened)
/// and a trailing unmatched `[` (a whole source that does not return the
/// balance to zero) fail, and nothing else does.
pub proof fn lemma_compile_ok_iff_balanced(src: Seq<u8>)
    ensures
        compile_spec(src) is Some <==> brackets_balanced(src),
{
    lemma_scan_some_iff(src, 0, Seq::empty(), Seq::empty());
}

/// Compile raw source bytes into a command sequence.
///
/// Bytes outside the eight-value instruction alphabet are ignored.  The
/// result is exactly what the scan of the source yields, and compilation
/// succeeds if and only if the loop brackets of the source balance.  The
/// length bound is the machine limit that keeps a folded pointer
/// displacement inside `isize`.
pub fn compile(src: &[u8]) -> (r: Result<Vec<Command>, SyntaxError>)
    requires
        src@.len() <= isize::MAX as int,
    ensures
        match r {
            Ok(cmds) => compile_spec(src@) == Some(cmds@) && brackets_paired(cmds@),
            Err(e) => compile_spec(src@) is None && e == SyntaxError::UnbalancedBrackets,
        },
        r is Ok <==> brackets_balanced(src@),
{
    proof {
        lemma_compile_ok_iff_balanced(src@);
    }
    let mut commands: Vec<Command> = Vec::new();
    let mut bracket_stack: Vec<usize> = Vec::new();
    let n: usize = src.len();
    let mut i: usize = 0;
    while i < n
        invariant
            i <= n,
            n == src@.len(),
            n <= isize::MAX as int,
            commands@.len() <= i,
            compile_spec(src@) == scan(src@, i as int, commands@, bracket_stack@),
            forall|k: int| 0 <= k < bracket_stack@.len() ==> bracket_stack@[k] < commands@.len(),
            commands@.len() > 0 && commands@.last() is ChangePointer ==> -(i as int)
                <= commands@.last()->ChangePointer_0 <= i as int,
        decreases n - i,
    {
        let ghost pre_cmds = commands@;
        let ghost pre_stack = bracket_stack@;
        let b = src[i];
        if b == 43 || b == 45 {  // '+' or '-'
            let d: u8 = if b == 43 {
                1
            } else {
                255
            };
            let len = commands.len();
            let mut fused = false;
            if len > 0 {
                if let Command::ChangeByte(v) = commands[len - 1] {
                    let s: u16 = (v as u16) + (d as u16);
                    commands[len - 1] = Command::ChangeByte((s % 256) as u8);
                    fused = true;
                }
            }
            if !fused {
                commands.push(Command::ChangeByte(d));
            }
            proof {
                assert(commands@ =~= fuse_byte(pre_cmds, d));
            }
        } else if b == 62 || b == 60 {  // '>' or '<'
            let len = commands.len();
            let mut fused = false;
            if len > 0 {
                if let Command::ChangePointer(v) = commands[len - 1] {
                    let nv: isize = if b == 62 {
                        v + 1
                    } else {
                        v - 1
                    };
                    commands[len - 1] = Command::ChangePointer(nv);
                    fused = true;
                }
            }
            if !fused {
                commands.push(Command::ChangePointer(if b == 62 {
                    1
                } else {
                    -1
                }));
            }
            proof {
                assert(commands@ =~= fuse_move(pre_cmds, if b == 62 {
                    1int
                } else {
                    -1int
                }));
            }
        } else if b == 91 {  // '['
            bracket_stack.push(commands.len());
            commands.push(Command::JumpIfZero(0));
        } else if b == 93 {  // ']'
            match bracket_stack.pop() {
                None => {
                    proof {
                        lemma_compile_ok_iff_balanced(src@);
                    }
                    return Err(SyntaxError::UnbalancedBrackets);
                },
                Some(open) => {
                    let len = commands.len();
                    commands[open] = Command::JumpIfZero(len + 1);
                    commands.push(Command::JumpIfNonZero(open + 1));
                    proof {
                        assert(commands@ =~= pre_cmds.update(
                            pre_stack.last() as int,
                            Command::JumpIfZero((pre_cmds.len() + 1) as usize),
                        ).push(Command::JumpIfNonZero((pre_stack.last() + 1) as usize)));
                    }
                },
            }
        } else if b == 46 {  // '.'
            commands.push(Command::Output);
        } else if b == 44 {  // ','
            commands.push(Command::Input);
        }
        i = i + 1;
    }
    if bracket_stack.len() > 0 {
        return Err(SyntaxError::UnbalancedBrackets);
    }
    proof {
        lemma_compile_paired(src@);
    }
    Ok(commands)
}

} // verus!
