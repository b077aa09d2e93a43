//! The delta generator: given the old and the new contents of a file, it
//! emits an edit script whose replay turns the old bytes into the new
//! ones, proved here for every pair of inputs.

use vstd::prelude::*;
use crate::codec;
use crate::codec::spec_vec_diff;
use crate::record::{
    Instruction, InstructionV, Operation, OperationV, RepoFileType, spec_run_instruction,
};
use crate::record_bytes::spec_psize_of_len;

verus! {

/// A byte sequence brought to length `n`: truncated, or extended with
/// zeros.
pub open spec fn spec_resize(s: Seq<u8>, n: int) -> Seq<u8> {
    Seq::new(n as nat, |i: int| if i < s.len() {
        s[i]
    } else {
        0u8
    })
}

/// The buffer after replaying the instructions from `i` on, in order.
pub open spec fn spec_replay(l: Seq<InstructionV>, s: Seq<u8>, i: int) -> Seq<u8>
    decreases l.len() - i,
{
    if i < 0 || i >= l.len() {
        s
    } else {
        spec_replay(l, spec_run_instruction(l[i], s), i + 1)
    }
}

/// Replaying one more instruction replays it over the result so far.
pub proof fn lemma_replay_snoc(l: Seq<InstructionV>, x: InstructionV, s: Seq<u8>)
    ensures
        spec_replay(l.push(x), s, 0) == spec_run_instruction(x, spec_replay(l, s, 0)),
    decreases l.len(),
{
    lemma_replay_snoc_from(l, x, s, 0);
}

proof fn lemma_replay_snoc_from(l: Seq<InstructionV>, x: InstructionV, s: Seq<u8>, i: int)
    requires
        0 <= i <= l.len(),
    ensures
        spec_replay(l.push(x), s, i) == spec_run_instruction(x, spec_replay(l, s, i)),
    decreases l.len() - i,
{
    if i == l.len() {
        assert(l.push(x)[i] == x);
        assert(spec_replay(l.push(x), s, i) == spec_replay(
            l.push(x),
            spec_run_instruction(x, s),
            i + 1,
        ));
    } else {
        assert(l.push(x)[i] == l[i]);
        lemma_replay_snoc_from(l, x, spec_run_instruction(l[i], s), i + 1);
    }
}

/// Every entry of the difference list names a position where the inputs
/// differ, carries the new byte there, and the entries come in strictly
/// increasing order of position.
pub proof fn lemma_vec_diff_entries(old: Seq<u8>, new: Seq<u8>, lo: int)
    requires
        old.len() == new.len(),
        new.len() <= usize::MAX,
        0 <= lo,
    ensures
        forall|k: int|
            0 <= k < spec_vec_diff(old, new, lo).len() ==> {
                let e = #[trigger] spec_vec_diff(old, new, lo)[k];
                lo <= e.0 < new.len() && old[e.0 as int] != new[e.0 as int] && e.1 == new[
                    e.0 as int
                ]
            },
        forall|k1: int, k2: int|
            0 <= k1 < k2 < spec_vec_diff(old, new, lo).len() ==> (#[trigger] spec_vec_diff(
                old,
                new,
                lo,
            )[k1]).0 < (#[trigger] spec_vec_diff(old, new, lo)[k2]).0,
    decreases new.len() - lo,
{
    if lo < new.len() {
        lemma_vec_diff_entries(old, new, lo + 1);
        let rest = spec_vec_diff(old, new, lo + 1);
        if new[lo] != old[lo] {
            let d = spec_vec_diff(old, new, lo);
            assert(d == seq![(lo as usize, new[lo])] + rest);
            assert forall|k: int| 0 <= k < d.len() implies {
                let e = #[trigger] d[k];
                lo <= e.0 < new.len() && old[e.0 as int] != new[e.0 as int] && e.1 == new[
                    e.0 as int
                ]
            } by {
                if k > 0 {
                    assert(d[k] == rest[k - 1]);
                }
            }
            assert forall|k1: int, k2: int| 0 <= k1 < k2 < d.len() implies (#[trigger] d[k1]).0 < (
            #[trigger] d[k2]).0 by {
                if k1 > 0 {
                    assert(d[k1] == rest[k1 - 1]);
                }
                assert(d[k2] == rest[k2 - 1]);
            }
        }
    }
}

/// Wherever the inputs differ, the difference list has an entry.
pub proof fn lemma_vec_diff_complete(old: Seq<u8>, new: Seq<u8>, lo: int, j: int)
    requires
        old.len() == new.len(),
        new.len() <= usize::MAX,
        0 <= lo <= j < new.len(),
        old[j] != new[j],
    ensures
        exists|k: int|
            0 <= k < spec_vec_diff(old, new, lo).len() && (#[trigger] spec_vec_diff(
                old,
                new,
                lo,
            )[k]).0 == j,
    decreases new.len() - lo,
{
    let d = spec_vec_diff(old, new, lo);
    if j == lo {
        assert(d[0].0 == j);
    } else {
        lemma_vec_diff_complete(old, new, lo + 1, j);
        let rest = spec_vec_diff(old, new, lo + 1);
        let k0 = choose|k: int| 0 <= k < rest.len() && (#[trigger] rest[k]).0 == j;
        if new[lo] != old[lo] {
            assert(d[k0 + 1] == rest[k0]);
            assert(d[k0 + 1].0 == j);
        } else {
            assert(d[k0] == rest[k0]);
        }
    }
}

/// Whether one instruction is sound for a buffer of length `n` under a
/// pointer size: its window stays inside the buffer, its payload length
/// matches, and only generated operations appear.
pub open spec fn wf_instruction(ins: InstructionV, psize: int, n: int) -> bool {
    &&& 0 <= ins.pointer
    &&& 1 <= ins.num_bytes
    &&& ins.pointer + ins.num_bytes <= n
    &&& match ins.operation {
        OperationV::Replace(bytes) => bytes.len() == ins.num_bytes,
        OperationV::Blank => true,
        OperationV::SetTo(b) => b != 0,
        _ => false,
    }
}

/// Whether every instruction of a list is sound for a buffer of length
/// `n`.
pub open spec fn wf_instructions(l: Seq<InstructionV>, psize: int, n: int) -> bool {
    forall|k: int| 0 <= k < l.len() ==> wf_instruction(#[trigger] l[k], psize, n)
}

/// Generates the edit aspect that turns `old_data` into `new_data`. The
/// old bytes are first brought to the new length; the difference
/// positions are then walked greedily, accumulating contiguous blocks
/// that absorb small gaps, each closed as a `Blank`, `SetTo` or
/// `Replace` instruction. Replaying the returned instructions over the
/// resized old bytes provably yields `new_data`.
#[verifier::rlimit(100)]
#[verifier::spinoff_prover]
pub fn generate_file_instructions(old_data: Vec<u8>, new_data: Vec<u8>) -> (r: RepoFileType)
    requires
        new_data@.len() + 17 < usize::MAX,
    ensures
        r@ is Edit,
        r@->Edit_1 == spec_psize_of_len(new_data@.len() as u64),
        1 <= r@->Edit_1 <= 8,
        wf_instructions(r@->Edit_0, r@->Edit_1, new_data@.len() as int),
        spec_replay(r@->Edit_0, spec_resize(old_data@, new_data@.len() as int), 0) == new_data@,
{
    let ghost old0 = old_data@;
    let ghost new = new_data@;
    let n = new_data.len();
    let ghost base = spec_resize(old0, n as int);

    // Bring the old bytes to the new length.
    let mut cur = old_data;
    if cur.len() > n {
        cur.truncate(n);
    } else {
        while cur.len() < n
            invariant
                old0.len() <= cur@.len() <= n,
                cur@ == spec_resize(old0, cur@.len() as int),
            decreases n - cur@.len(),
        {
            cur.push(0u8);
            proof {
                assert(cur@ =~= spec_resize(old0, cur@.len() as int));
            }
        }
    }
    proof {
        assert(cur@ =~= base);
    }

    let diff_opt = codec::generate_vec_diff(&cur, &new_data);
    let diff = if let Some(d) = diff_opt {
        d
    } else {
        proof {
            assert(false);
        }
        Vec::new()
    };
    let ghost dv = diff@;
    proof {
        assert(dv == spec_vec_diff(base, new, 0));
        lemma_vec_diff_entries(base, new, 0);
    }

    let pointer_size = crate::record_bytes::psize_of_len(n as u64);
    let ins_overhead = 1 + pointer_size + 1;

    let mut instructions: Vec<Instruction> = Vec::new();
    let mut index: usize = 0;
    let dcount = diff.len();
    proof {
        assert(dv.len() == dcount as int);
    }
    while index < diff.len()
        invariant
            new == new_data@,
            dv == diff@,
            dv == spec_vec_diff(base, new, 0),
            base.len() == n,
            n == new.len(),
            n + 17 < usize::MAX,
            1 <= pointer_size <= 8,
            pointer_size == spec_psize_of_len(n as u64),
            3 <= ins_overhead <= 10,
            dv.len() <= usize::MAX,
            index <= dv.len(),
            cur@.len() == n,
            forall|i: int| 0 <= i < n ==> cur@[i] == new[i] || cur@[i] == base[i],
            forall|k: int|
                0 <= k < index ==> cur@[(#[trigger] dv[k]).0 as int] == new[dv[k].0 as int],
            spec_replay(instructions.deep_view(), base, 0) == cur@,
            wf_instructions(instructions.deep_view(), pointer_size as int, n as int),
        decreases dv.len() - index,
    {
        proof {
            lemma_vec_diff_entries(base, new, 0);
        }
        let start = diff[index].0;
        let mut add_index: usize = 1;
        let mut block: Vec<u8> = Vec::new();
        block.push(diff[index].1);
        let mut single_type: bool = true;

        while index + add_index < diff.len()
            invariant
                new == new_data@,
                dv == diff@,
                dv == spec_vec_diff(base, new, 0),
                base.len() == n,
                n == new.len(),
                n + 17 < usize::MAX,
                dv.len() <= usize::MAX,
                3 <= ins_overhead <= 10,
                index < dv.len(),
                1 <= add_index <= dv.len() - index,
                start == dv[index as int].0,
                block@.len() >= 1,
                start + block@.len() <= n,
                start + block@.len() - 1 == dv[index + add_index - 1].0,
                forall|k: int|
                    0 <= k < block@.len() ==> #[trigger] block@[k] == new[start + k],
                single_type ==> forall|k: int|
                    0 <= k < block@.len() ==> #[trigger] block@[k] == block@[0],
            ensures
                1 <= add_index <= dv.len() - index,
                block@.len() >= 1,
                start + block@.len() <= n,
                start + block@.len() - 1 == dv[index + add_index - 1].0,
                forall|k: int|
                    0 <= k < block@.len() ==> #[trigger] block@[k] == new[start + k],
                single_type ==> forall|k: int|
                    0 <= k < block@.len() ==> #[trigger] block@[k] == block@[0],
            decreases dv.len() - index - add_index,
        {
            proof {
                lemma_vec_diff_entries(base, new, 0);
            }
            let last_offset = diff[index + add_index - 1].0;
            let entry = diff[index + add_index];
            let offset = entry.0;
            let val = entry.1;

            if offset > last_offset + 1 {
                if offset > last_offset + ins_overhead {
                    // The gap is too wide: close this block.
                    break ;
                } else if single_type && block[0] != val && block.len() > ins_overhead {
                    // A long single-type block closes before adopting a
                    // differing byte.
                    break ;
                } else {
                    // Absorb the unchanged bytes between the last covered
                    // position and the next difference.
                    let ghost pre_len = block@.len();
                    let mut add_offset: usize = 1;
                    let mut closed = false;
                    while last_offset + add_offset <= offset
                        invariant_except_break
                            !closed,
                            1 <= add_offset <= offset - last_offset + 1,
                            block@.len() == pre_len + add_offset - 1,
                        invariant
                            new == new_data@,
                            n == new.len(),
                            n + 17 < usize::MAX,
                            3 <= ins_overhead <= 10,
                            last_offset < offset < n,
                            start + pre_len - 1 == last_offset,
                            pre_len >= 1,
                            block@.len() >= 1,
                            start + block@.len() <= n,
                            forall|k: int|
                                0 <= k < block@.len() ==> #[trigger] block@[k] == new[start + k],
                            single_type ==> forall|k: int|
                                0 <= k < block@.len() ==> #[trigger] block@[k] == block@[0],
                        ensures
                            block@.len() >= 1,
                            start + block@.len() <= n,
                            forall|k: int|
                                0 <= k < block@.len() ==> #[trigger] block@[k] == new[start + k],
                            single_type ==> forall|k: int|
                                0 <= k < block@.len() ==> #[trigger] block@[k] == block@[0],
                            closed ==> block@.len() == pre_len,
                            !closed ==> start + block@.len() - 1 == offset,
                        decreases offset - last_offset - add_offset + 1,
                    {
                        let val2 = new_data[last_offset + add_offset];
                        if single_type && val2 != block[0] {
                            if block.len() > ins_overhead {
                                // Close: the absorbed bytes since the last
                                // difference are dropped again.
                                proof {
                                    assert(!closed);
                                    assert(block@.len() == pre_len + add_offset - 1);
                                    assert(block@.len() >= add_offset - 1);
                                }
                                let ghost pre_trunc = block@;
                                block.truncate(block.len() - (add_offset - 1));
                                proof {
                                    assert(block@ =~= pre_trunc.subrange(0, pre_len as int));
                                    assert(block@.len() == pre_len);
                                }
                                closed = true;
                                break ;
                            } else {
                                single_type = false;
                                block.push(val2);
                                add_offset = add_offset + 1;
                            }
                        } else {
                            block.push(val2);
                            add_offset = add_offset + 1;
                        }
                    }
                    if closed {
                        break ;
                    }
                    proof {
                        assert(start + block@.len() - 1 == offset);
                    }
                }
            } else {
                // The next difference continues the block directly.
                if single_type && block[0] != val {
                    if block.len() > ins_overhead {
                        break ;
                    } else {
                        single_type = false;
                        block.push(val);
                    }
                } else {
                    block.push(val);
                }
            }

            add_index = add_index + 1;
        }

        // Close the block as one instruction and replay it at once, so
        // the final buffer provably matches the new contents.
        let num_bytes = block.len();
        let first = block[0];
        let op: Operation = if single_type {
            if first == 0x00 {
                Operation::Blank
            } else {
                Operation::SetTo(first)
            }
        } else {
            Operation::Replace(block)
        };
        let ins = Instruction::new(start, num_bytes, op);
        proof {
            assert(wf_instruction(ins@, pointer_size as int, n as int));
        }
        let ghost prev_cur = cur@;
        ins.run_instruction(&mut cur);
        proof {
            lemma_replay_snoc(instructions.deep_view(), ins@, base);
            let idv = instructions.deep_view();
            assert(cur@ == spec_run_instruction(ins@, prev_cur));
            // The instruction writes the new bytes over its window and
            // nothing else.
            assert(cur@.len() == n);
            assert forall|i: int| 0 <= i < n implies cur@[i] == (if start <= i < start + num_bytes {
                new[i]
            } else {
                prev_cur[i]
            }) by {
                if start <= i < start + num_bytes {
                    assert(block@[i - start] == new[i]);
                }
            }
        }
        let ghost emitted = instructions.deep_view();
        instructions.push(ins);
        proof {
            assert(instructions.deep_view() =~= emitted.push(ins@));
            assert(spec_replay(instructions.deep_view(), base, 0) == cur@);
            // Every difference consumed into this block lies inside its
            // window.
            assert forall|k: int| 0 <= k < index + add_index implies cur@[(
            #[trigger] dv[k]).0 as int] == new[dv[k].0 as int] by {
                if k < index {
                    assert(dv[k].0 < dv[index as int].0);
                } else {
                    assert(dv[index as int].0 <= dv[k].0 <= dv[index + add_index - 1].0);
                }
            }
        }
        index = index + add_index;
    }

    proof {
        assert forall|i: int| 0 <= i < n implies cur@[i] == new[i] by {
            if base[i] != new[i] {
                lemma_vec_diff_complete(base, new, 0, i);
                let k = choose|k: int|
                    0 <= k < dv.len() && (#[trigger] dv[k]).0 == i;
                assert(cur@[dv[k].0 as int] == new[dv[k].0 as int]);
            }
        }
        assert(cur@ =~= new);
    }

    RepoFileType::Edit(instructions, pointer_size)
}

} // verus!
