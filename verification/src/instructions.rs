//! A toy machine over a list of instructions.
//!
//! The machine holds an accumulator and an instruction pointer, runs until
//! it revisits an instruction or walks off the end of the list, and
//! records each visited instruction with its successor. A repair pass then
//! swaps one jump for a no-op (or the reverse) along the loop it found,
//! looking for a swap under which the machine runs off the end normally.

use crate::parse::{all_digits, digits_value, is_digit, lemma_digits_value_prefix};
use std::collections::HashMap;
use vstd::prelude::*;

verus! {

/// One instruction: a no-op, an accumulation, or a jump.
#[derive(Clone, Copy, Debug, PartialEq, Eq, Structural)]
pub enum OP {
    Nop(i64),
    Acc(i64),
    Jmp(i64),
}

impl View for OP {
    type V = OP;

    open spec fn view(&self) -> OP {
        *self
    }
}

impl DeepView for OP {
    type V = OP;

    open spec fn deep_view(&self) -> OP {
        *self
    }
}

/// The digit part of a number written with an optional sign.
pub open spec fn signed_body(s: Seq<char>) -> Seq<char> {
    if s.len() > 0 && (s[0] == '+' || s[0] == '-') {
        s.drop_first()
    } else {
        s
    }
}

/// Whether the number is written with a minus sign.
pub open spec fn is_negative(s: Seq<char>) -> bool {
    s.len() > 0 && s[0] == '-'
}

/// Whether `s` is a number that 64-bit signed parsing accepts: an optional
/// sign, at least one digit, and a value that fits.
pub open spec fn parses_as_i64(s: Seq<char>) -> bool {
    let body = signed_body(s);
    &&& body.len() > 0
    &&& all_digits(body)
    &&& if is_negative(s) {
        digits_value(body) <= 0x8000000000000000
    } else {
        digits_value(body) <= 0x7fffffffffffffff
    }
}

/// The number `s` denotes, or 0 where `s` is not a well-formed 64-bit
/// signed number.
pub open spec fn spec_to_int(s: Seq<char>) -> i64 {
    if parses_as_i64(s) {
        if is_negative(s) {
            (-digits_value(signed_body(s))) as i64
        } else {
            digits_value(signed_body(s)) as i64
        }
    } else {
        0
    }
}

/// Reads a 64-bit signed decimal number, giving 0 for anything that is
/// not one.
pub fn to_int(value: &Vec<char>) -> (r: i64)
    ensures
        r == spec_to_int(value@),
{
    let mut start: usize = 0;
    let mut negative = false;
    if value.len() > 0 && value[0] == '+' {
        start = 1;
    } else if value.len() > 0 && value[0] == '-' {
        start = 1;
        negative = true;
    }
    if start >= value.len() {
        return 0;
    }
    let ghost body = signed_body(value@);
    proof {
        assert(body =~= value@.subrange(start as int, value@.len() as int));
    }
    let bound: u64 = if negative {
        0x8000000000000000
    } else {
        0x7fffffffffffffff
    };
    let mut acc: u64 = 0;
    let mut i: usize = start;
    while i < value.len()
        invariant
            start <= i <= value@.len(),
            negative == is_negative(value@),
            bound == if negative {
                0x8000000000000000u64
            } else {
                0x7fffffffffffffffu64
            },
            body == signed_body(value@),
            body == value@.subrange(start as int, value@.len() as int),
            all_digits(body.take(i - start)),
            acc == digits_value(body.take(i - start)),
            acc <= bound,
        decreases value@.len() - i,
    {
        let c = value[i];
        let u = c as u32;
        if u < 48 || u > 57 {
            proof {
                assert(body[i - start] == c);
                assert(!is_digit(body[i - start]));
            }
            return 0;
        }
        let d = (u - 48) as u64;
        proof {
            assert(body.take(i + 1 - start).drop_last() =~= body.take(i - start));
            assert(body.take(i + 1 - start).last() == c);
        }
        if acc > (bound - d) / 10 {
            proof {
                assert(digits_value(body.take(i + 1 - start)) == acc * 10 + d);
                assert(acc * 10 + d > bound) by (nonlinear_arith)
                    requires
                        acc > (bound - d) / 10,
                        d <= 9,
                        bound >= d,
                ;
                if parses_as_i64(value@) {
                    lemma_digits_value_prefix(body, i + 1 - start);
                }
            }
            return 0;
        }
        acc = acc * 10 + d;
        i = i + 1;
    }
    proof {
        assert(body.take(value@.len() - start) =~= body);
    }
    if negative {
        if acc == 0x8000000000000000 {
            i64::MIN
        } else {
            -(acc as i64)
        }
    } else {
        acc as i64
    }
}

/// The index `change` steps away, floored at the start of the list.
pub open spec fn spec_safe_index(index: u32, change: i64) -> int {
    if index + change >= 0 {
        index + change
    } else {
        0
    }
}

/// Moves the instruction pointer by `change`, never off the front.
pub fn safely_change_index(index: u32, change: i64) -> (r: u32)
    requires
        index + change <= u32::MAX,
    ensures
        r == spec_safe_index(index, change),
{
    let sum = change + index as i64;
    if sum >= 0 {
        sum as u32
    } else {
        0
    }
}

/// Every operand small enough that the pointer arithmetic stays in range.
pub open spec fn ops_bounded(instrs: Seq<OP>) -> bool {
    forall|i: int|
        0 <= i < instrs.len() ==> match #[trigger] instrs[i] {
            OP::Nop(n) => -0x7fffffff <= n <= 0x7fffffff,
            OP::Acc(n) => -0x7fffffff <= n <= 0x7fffffff,
            OP::Jmp(n) => -0x7fffffff <= n <= 0x7fffffff,
        }
}

/// Where the machine goes from instruction `idx`: past an accumulation or
/// a no-op, along a jump — with the one swapped instruction read the other
/// way around.
pub open spec fn spec_next_index(instrs: Seq<OP>, swap: Option<u32>, idx: u32) -> int
    recommends
        idx < instrs.len(),
{
    match instrs[idx as int] {
        OP::Acc(_) => idx + 1,
        OP::Jmp(n) => if swap == Some(idx) {
            idx + 1
        } else {
            spec_safe_index(idx, n)
        },
        OP::Nop(n) => if swap == Some(idx) {
            spec_safe_index(idx, n)
        } else {
            idx + 1
        },
    }
}

/// What instruction `idx` adds to the accumulator.
pub open spec fn spec_acc_delta(instrs: Seq<OP>, idx: u32) -> int
    recommends
        idx < instrs.len(),
{
    match instrs[idx as int] {
        OP::Acc(n) => n as int,
        _ => 0,
    }
}

/// The machine state after `n` steps: instruction pointer, accumulator,
/// and the map from each visited instruction to its successor. A machine
/// that has halted — on a revisit or past the end — stays halted.
pub open spec fn spec_trace(instrs: Seq<OP>, swap: Option<u32>, n: nat) -> (u32, int, Map<u32, u32>)
    decreases n,
{
    if n == 0 {
        (0u32, 0int, Map::<u32, u32>::empty())
    } else {
        let prev = spec_trace(instrs, swap, (n - 1) as nat);
        let pc = prev.0;
        let acc = prev.1;
        let seen = prev.2;
        if seen.contains_key(pc) || pc >= instrs.len() {
            prev
        } else {
            let next = spec_next_index(instrs, swap, pc);
            ((next as u32), acc + spec_acc_delta(instrs, pc), seen.insert(pc, next as u32))
        }
    }
}

/// A state from which the machine takes no further step.
pub open spec fn spec_halted(instrs: Seq<OP>, st: (u32, int, Map<u32, u32>)) -> bool {
    st.2.contains_key(st.0) || st.0 >= instrs.len()
}

/// A halted machine stays halted, in the very same state.
pub proof fn lemma_trace_stable(instrs: Seq<OP>, swap: Option<u32>, n: nat, m: nat)
    requires
        n <= m,
        spec_halted(instrs, spec_trace(instrs, swap, n)),
    ensures
        spec_trace(instrs, swap, m) == spec_trace(instrs, swap, n),
    decreases m,
{
    if m > n {
        lemma_trace_stable(instrs, swap, n, (m - 1) as nat);
    }
}

/// Every instruction the machine records lies inside the list.
pub proof fn lemma_trace_keys(instrs: Seq<OP>, swap: Option<u32>, n: nat)
    ensures
        forall|k: u32| #[trigger]
            spec_trace(instrs, swap, n).2.contains_key(k) ==> k < instrs.len(),
    decreases n,
{
    if n > 0 {
        lemma_trace_keys(instrs, swap, (n - 1) as nat);
        assert forall|k: u32| #[trigger]
            spec_trace(instrs, swap, n).2.contains_key(k) implies k < instrs.len() by {
            let prev = spec_trace(instrs, swap, (n - 1) as nat);
            if !(prev.2.contains_key(prev.0) || prev.0 >= instrs.len()) && k != prev.0 {
                assert(prev.2.contains_key(k));
            }
        }
    }
}

/// What a finished run reports: after `n` steps the machine has halted,
/// with this accumulator, this revisited instruction (or none, where it
/// walked off the end), and this visited-instruction map.
pub open spec fn spec_run_summary(
    instrs: Seq<OP>,
    swap: Option<u32>,
    n: nat,
    acc: int,
    fin: Option<u32>,
    seen: Map<u32, u32>,
) -> bool {
    let st = spec_trace(instrs, swap, n);
    &&& n <= instrs.len()
    &&& spec_halted(instrs, st)
    &&& acc == st.1
    &&& fin == if st.2.contains_key(st.0) {
        Some(st.0)
    } else {
        None::<u32>
    }
    &&& seen == st.2
}

/// Runs the machine until it revisits an instruction or walks off the end
/// of the list — which happens within as many steps as there are
/// instructions, since no instruction is stepped from twice. Gives the
/// accumulator, the revisited instruction if the run was cut short, and
/// the visited-instruction map.
pub fn accumulate_from_instructions(instructions: &Vec<OP>, swap_op_index: Option<u32>) -> (res: (
    i64,
    Option<u32>,
    HashMap<u32, u32>,
))
    requires
        instructions@.len() <= 0x100000,
        ops_bounded(instructions@),
    ensures
        exists|n: nat|
            spec_run_summary(
                instructions@,
                swap_op_index,
                n,
                res.0 as int,
                res.1,
                #[trigger] spec_trace(instructions@, swap_op_index, n).2,
            ) && res.2@ == spec_trace(instructions@, swap_op_index, n).2,
        res.1 is Some ==> res.2@.contains_key(res.1.unwrap()),
        res.1 is Some ==> forall|k: u32| res.2@.contains_key(k)
            ==> res.2@.contains_key(#[trigger] res.2@[k]),
        forall|k: u32| #[trigger]
            res.2@.contains_key(k) ==> k < instructions@.len() && res.2@[k] == spec_next_index(
                instructions@,
                swap_op_index,
                k,
            ),
        res.1 is Some ==> exists|n: nat|
            n <= instructions@.len() && (#[trigger] spec_trace(
                instructions@,
                swap_op_index,
                n,
            )).2.contains_key(spec_trace(instructions@, swap_op_index, n).0),
        res.1 is None ==> exists|n: nat|
            n <= instructions@.len() && (#[trigger] spec_trace(instructions@, swap_op_index, n)).0
                >= instructions@.len() && res.0 == spec_trace(instructions@, swap_op_index, n).1,
{
    broadcast use vstd::std_specs::hash::group_hash_axioms;

    let ghost instrs = instructions@;
    let mut visited_instruction_graph: HashMap<u32, u32> = HashMap::new();
    let mut acc: i64 = 0;
    let mut index: u32 = 0;
    let mut n: u32 = 0;
    let mut done = false;
    let ghost mut inserted: Seq<usize> = Seq::empty();
    while !done
        invariant
            instrs == instructions@,
            instrs.len() <= 0x100000,
            ops_bounded(instrs),
            n <= instrs.len(),
            n == inserted.len(),
            inserted.no_duplicates(),
            forall|j: int|
                0 <= j < inserted.len() ==> (#[trigger] inserted[j]) < instrs.len()
                    && visited_instruction_graph@.contains_key(inserted[j] as u32),
            (index, acc as int, visited_instruction_graph@) == spec_trace(
                instrs,
                swap_op_index,
                n as nat,
            ),
            -0x7fffffff * (n as int) <= acc <= 0x7fffffff * (n as int),
            done ==> spec_halted(instrs, (index, acc as int, visited_instruction_graph@)),
            forall|k: u32| #[trigger]
                visited_instruction_graph@.contains_key(k) ==> k < instrs.len()
                    && visited_instruction_graph@[k] == spec_next_index(instrs, swap_op_index, k),
            forall|k: u32| #[trigger]
                visited_instruction_graph@.contains_key(k)
                    ==> visited_instruction_graph@.contains_key(visited_instruction_graph@[k])
                    || visited_instruction_graph@[k] == index,
        decreases (if done {
            0int
        } else {
            1int
        }), instrs.len() + 1 - n,
    {
        if visited_instruction_graph.contains_key(&index) {
            done = true;
        } else if index as usize >= instructions.len() {
            done = true;
        } else {
            let op = instructions[index as usize];
            let next_index: u32 = match op {
                OP::Acc(num) => {
                    acc = acc + num;
                    index + 1
                },
                OP::Jmp(num) => {
                    match swap_op_index {
                        Some(swap_index) if swap_index == index => index + 1,
                        _ => safely_change_index(index, num),
                    }
                },
                OP::Nop(num) => {
                    match swap_op_index {
                        Some(swap_index) if swap_index == index => safely_change_index(index, num),
                        _ => index + 1,
                    }
                },
            };
            proof {
                if inserted.contains(index as usize) {
                    let j = choose|j: int|
                        0 <= j < inserted.len() && (#[trigger] inserted[j]) == index as usize;
                    assert(visited_instruction_graph@.contains_key(inserted[j] as u32));
                }
                crate::bags::lemma_push_distinct(inserted, index as usize);
                crate::bags::lemma_distinct_bounded_len(
                    inserted.push(index as usize),
                    instrs.len() as nat,
                );
            }
            visited_instruction_graph.insert(index, next_index);
            proof {
                assert(spec_next_index(instrs, swap_op_index, index) == next_index);
                inserted = inserted.push(index as usize);
                assert(inserted.last() == index as usize);
            }
            index = next_index;
            n = n + 1;
        }
    }
    let finished_early = if visited_instruction_graph.contains_key(&index) {
        Some(index)
    } else {
        None
    };
    proof {
        let st = spec_trace(instructions@, swap_op_index, n as nat);
        assert((index, acc as int, visited_instruction_graph@) == st);
        assert(spec_run_summary(
            instructions@,
            swap_op_index,
            n as nat,
            acc as int,
            finished_early,
            st.2,
        ));
        if finished_early is Some {
            assert(st.2.contains_key(st.0));
        } else {
            assert(st.0 >= instructions@.len());
        }
    }
    (acc, finished_early, visited_instruction_graph)
}

/// A one-instruction repair: either no change, or one jump or no-op of the
/// list read the other way around.
pub open spec fn spec_valid_repair(instrs: Seq<OP>, swap: Option<u32>) -> bool {
    match swap {
        None => true,
        Some(i) => i < instrs.len() && !(instrs[i as int] is Acc),
    }
}

/// A successor chain through the visited-instruction map, starting at the
/// revisited instruction. The chain either closes back on its start — the
/// loop the run fell into — or is already longer than the instruction
/// list.
pub open spec fn spec_loop_chain(
    instrs: Seq<OP>,
    pc0: u32,
    seen: Map<u32, u32>,
    cands: Seq<u32>,
) -> bool {
    &&& cands.len() > 0
    &&& cands[0] == pc0
    &&& (forall|j: int| 0 <= j < cands.len() ==> seen.contains_key(#[trigger] cands[j]))
    &&& (forall|j: int| 0 < j < cands.len() ==> #[trigger] cands[j] == seen[cands[j - 1]])
    &&& (seen[cands.last()] == pc0 || cands.len() > instrs.len())
}

/// The loop the run fell into, every jump or no-op on which still loops
/// when swapped.
pub open spec fn spec_failed_cycle(
    instrs: Seq<OP>,
    pc0: u32,
    seen: Map<u32, u32>,
    cands: Seq<u32>,
) -> bool {
    &&& spec_loop_chain(instrs, pc0, seen, cands)
    &&& (forall|j: int|
        0 <= j < cands.len() && !(instrs[(#[trigger] cands[j]) as int] is Acc) ==> exists|n2: nat|
            n2 <= instrs.len() && (#[trigger] spec_trace(instrs, Some(cands[j]), n2)).2.contains_key(
                spec_trace(instrs, Some(cands[j]), n2).0,
            ))
}

/// Instruction `idx` sits on the loop that the run of the unrepaired
/// program detected.
pub open spec fn spec_on_detected_loop(instrs: Seq<OP>, idx: u32) -> bool {
    exists|n: nat, cands: Seq<u32>|
        #![trigger spec_loop_chain(
            instrs,
            spec_trace(instrs, None, n).0,
            spec_trace(instrs, None, n).2,
            cands,
        )]
        {
            let st = spec_trace(instrs, None, n);
            &&& n <= instrs.len()
            &&& st.2.contains_key(st.0)
            &&& spec_loop_chain(instrs, st.0, st.2, cands)
            &&& cands.contains(idx)
        }
}

/// The run of the unrepaired program loops, and the loop it detected
/// offers no repair: swapping any jump or no-op on it still loops.
pub open spec fn spec_no_repair_found(instrs: Seq<OP>, n: nat, cands: Seq<u32>) -> bool {
    let st = spec_trace(instrs, None, n);
    &&& n <= instrs.len()
    &&& st.2.contains_key(st.0)
    &&& spec_failed_cycle(instrs, st.0, st.2, cands)
}

/// Runs the machine once as given; where that run loops, walks the loop it
/// found and retries the run with each jump or no-op on the loop swapped.
/// `Some` carries the accumulator of a run that walked off the end of the
/// list under a one-instruction repair (or none, where the program already
/// halts); `None` means the run looped and no swap on the detected loop
/// repaired it.
pub fn accumulate_and_fix_broken_instruction(instructions: &Vec<OP>) -> (res: Option<i64>)
    requires
        instructions@.len() <= 0x100000,
        ops_bounded(instructions@),
    ensures
        res matches Some(a) ==> exists|swap: Option<u32>, n: nat|
            #![trigger spec_trace(instructions@, swap, n)]
            {
                let st = spec_trace(instructions@, swap, n);
                &&& spec_valid_repair(instructions@, swap)
                &&& (swap matches Some(idx) ==> spec_on_detected_loop(instructions@, idx))
                &&& n <= instructions@.len()
                &&& st.0 >= instructions@.len()
                &&& a == st.1
            },
        res is None ==> exists|n: nat, cands: Seq<u32>|
            spec_no_repair_found(instructions@, n, cands),
        forall|n: nat|
            n <= u32::MAX && (#[trigger] spec_trace(instructions@, None, n)).0
                >= instructions@.len() ==> res is Some,
{
    let (acc, finished_early_at_index, visited_instruction_graph) = accumulate_from_instructions(
        instructions,
        None,
    );
    broadcast use vstd::std_specs::hash::group_hash_axioms;

    let ghost n0 = choose|n0: nat|
        spec_run_summary(
            instructions@,
            None,
            n0,
            acc as int,
            finished_early_at_index,
            #[trigger] spec_trace(instructions@, None, n0).2,
        ) && visited_instruction_graph@ == spec_trace(instructions@, None, n0).2;
    proof {
        assert(spec_run_summary(
            instructions@,
            None,
            n0,
            acc as int,
            finished_early_at_index,
            spec_trace(instructions@, None, n0).2,
        ));
    }
    match finished_early_at_index {
        Some(initial_index) => {
            let ghost m0 = visited_instruction_graph@;
            proof {
                assert(spec_trace(instructions@, None, n0).0 == initial_index);
                assert(m0.contains_key(initial_index));
            }
            let mut index = initial_index;
            let mut possibly_broken_instructions: Vec<u32> = Vec::new();
            let mut steps: usize = 0;
            let mut closed = false;
            while !closed && steps <= instructions.len()
                invariant
                    m0 == visited_instruction_graph@,
                    m0.contains_key(initial_index),
                    m0.contains_key(index),
                    forall|k: u32| #[trigger]
                        m0.contains_key(k) ==> m0.contains_key(m0[k]),
                    forall|k: u32| #[trigger] m0.contains_key(k) ==> k < instructions@.len(),
                    forall|j: int|
                        0 <= j < possibly_broken_instructions@.len()
                            ==> #[trigger] possibly_broken_instructions@[j]
                            < instructions@.len(),
                    steps <= instructions@.len() + 1,
                    instructions@.len() <= 0x100000,
                    possibly_broken_instructions@.len() == steps,
                    possibly_broken_instructions@.len() > 0
                        ==> possibly_broken_instructions@[0] == initial_index,
                    forall|j: int|
                        0 <= j < possibly_broken_instructions@.len() ==> m0.contains_key(
                            #[trigger] possibly_broken_instructions@[j],
                        ),
                    forall|j: int|
                        0 < j < possibly_broken_instructions@.len()
                            ==> #[trigger] possibly_broken_instructions@[j] == m0[
                            possibly_broken_instructions@[j - 1]
                        ],
                    !closed ==> (possibly_broken_instructions@.len() == 0 && index
                        == initial_index) || (possibly_broken_instructions@.len() > 0 && index
                        == m0[possibly_broken_instructions@.last()]),
                    closed ==> possibly_broken_instructions@.len() > 0 && m0[
                        possibly_broken_instructions@.last()
                    ] == initial_index,
                decreases (if closed {
                    0int
                } else {
                    1int
                }), instructions@.len() + 1 - steps,
            {
                let next_index = *visited_instruction_graph.get(&index).unwrap();
                possibly_broken_instructions.push(index);
                if next_index == initial_index {
                    closed = true;
                } else {
                    index = next_index;
                }
                steps = steps + 1;
            }
            proof {
                assert(possibly_broken_instructions@.len() > 0);
                assert(m0[possibly_broken_instructions@.last()] == initial_index
                    || possibly_broken_instructions@.len() > instructions@.len());
            }
            let ghost cands = possibly_broken_instructions@;
            let mut i: usize = 0;
            while i < possibly_broken_instructions.len()
                invariant
                    instructions@.len() <= 0x100000,
                    ops_bounded(instructions@),
                    cands == possibly_broken_instructions@,
                    n0 <= instructions@.len(),
                    spec_trace(instructions@, None, n0).0 == initial_index,
                    spec_trace(instructions@, None, n0).2 == m0,
                    m0.contains_key(initial_index),
                    forall|j: int|
                        0 <= j < cands.len() ==> #[trigger] cands[j] < instructions@.len(),
                    cands.len() > 0,
                    cands[0] == initial_index,
                    forall|j: int| 0 <= j < cands.len() ==> m0.contains_key(#[trigger] cands[j]),
                    forall|j: int|
                        0 < j < cands.len() ==> #[trigger] cands[j] == m0[cands[j - 1]],
                    m0[cands.last()] == initial_index || cands.len() > instructions@.len(),
                    forall|j: int|
                        0 <= j < i && !(instructions@[(#[trigger] cands[j]) as int] is Acc)
                            ==> exists|n2: nat|
                            n2 <= instructions@.len() && (#[trigger] spec_trace(
                                instructions@,
                                Some(cands[j]),
                                n2,
                            )).2.contains_key(spec_trace(instructions@, Some(cands[j]), n2).0),
                decreases cands.len() - i,
            {
                let instruction_index = possibly_broken_instructions[i];
                let is_acc = match instructions[instruction_index as usize] {
                    OP::Acc(_) => true,
                    _ => false,
                };
                proof {
                    assert(is_acc == (instructions@[instruction_index as int] is Acc));
                }
                if !is_acc {
                    let (acc2, finished2, _) = accumulate_from_instructions(
                        instructions,
                        Some(instruction_index),
                    );
                    if finished2.is_none() {
                        proof {
                            let n2 = choose|n2: nat|
                                n2 <= instructions@.len() && (#[trigger] spec_trace(
                                    instructions@,
                                    Some(instruction_index),
                                    n2,
                                )).0 >= instructions@.len() && acc2 == spec_trace(
                                    instructions@,
                                    Some(instruction_index),
                                    n2,
                                ).1;
                            assert(spec_valid_repair(instructions@, Some(instruction_index)));
                            assert(spec_trace(instructions@, Some(instruction_index), n2).0
                                >= instructions@.len());
                            assert(cands[i as int] == instruction_index);
                            assert(cands.contains(instruction_index));
                            assert(spec_loop_chain(
                                instructions@,
                                spec_trace(instructions@, None, n0).0,
                                spec_trace(instructions@, None, n0).2,
                                cands,
                            ));
                            assert(spec_on_detected_loop(instructions@, instruction_index));
                        }
                        return Some(acc2);
                    }
                }
                i = i + 1;
            }
            proof {
                assert(spec_no_repair_found(instructions@, n0, cands));
                assert forall|n: nat|
                    n <= u32::MAX && (#[trigger] spec_trace(instructions@, None, n)).0
                        >= instructions@.len() implies false by {
                    let st0 = spec_trace(instructions@, None, n0);
                    lemma_trace_keys(instructions@, None, n0);
                    assert(st0.0 < instructions@.len());
                    if n <= n0 {
                        lemma_trace_stable(instructions@, None, n, n0);
                    } else {
                        lemma_trace_stable(instructions@, None, n0, n);
                    }
                }
            }
            None
        },
        None => {
            proof {
                let st0 = spec_trace(instructions@, None, n0);
                assert(!st0.2.contains_key(st0.0));
                assert(st0.0 >= instructions@.len());
                assert(spec_valid_repair(instructions@, None::<u32>));
            }
            Some(acc)
        },
    }
}

} // verus!
