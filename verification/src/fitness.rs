//! Monte Carlo fitness scoring of a program against the prefix oracle.
//!
//! One trial samples an oracle-consistent partial word, runs the program
//! on it, and compares the output register with the oracle's true letter
//! set. All fitness values are kept as exact integers: the aggregate is
//! the mean-penalty-plus-length fitness scaled by the positive constant
//! `10 * trials`, which leaves every comparison between genomes scored
//! with the same trial count unchanged.

use crate::fchar::{mask_clear, mask_contains, mask_set, CharSet, FChar, FULL_MASK};
use crate::oracle::{
    build_map, known_prefix_len, observed, pw_prefix, slots_in_range, word_slots_wf, Oracle,
    PartialWord, SIZE,
};
use crate::rng::{rng_below, rng_range};
use crate::svm::{prog_wf, run_spec, SvmInstruction, SvmState};
use vstd::prelude::*;

verus! {

use vstd::pervasive::VecAdditionalExecFns;

/// Weight of a letter wrongly predicted to follow.
pub const WEIGHT_FALSE_POSITIVE: u64 = 1000;

/// Weight of a letter wrongly predicted not to follow.
pub const WEIGHT_FALSE_NEGATIVE: u64 = 4000;

/// The largest value one trial can cost: `(32·4000 + 32·1000)²`.
pub const PENALTY_MAX: u64 = 25_600_000_000;

/// The most trials one scoring call may ask for.
pub const TRIALS_MAX: usize = 1_000_000;

/// The longest program one scoring call may take: a machine limit that
/// keeps the scaled fitness inside 64 bits.
pub const PROGRAM_MAX: u64 = 1_000_000_000_000;

/// Number of ones among the low `k` bits.
pub open spec fn count_ones_below(m: u32, k: nat) -> nat
    decreases k,
{
    if k == 0 {
        0
    } else {
        (if mask_contains(m, (k - 1) as u8) {
            1nat
        } else {
            0nat
        }) + count_ones_below(m, (k - 1) as nat)
    }
}

/// Number of ones in the binary representation.
pub open spec fn count_ones(m: u32) -> nat {
    count_ones_below(m, 32)
}

/// At most `k` of the low `k` bits are ones.
pub proof fn lemma_count_le(m: u32, k: nat)
    ensures
        count_ones_below(m, k) <= k,
    decreases k,
{
    if k > 0 {
        lemma_count_le(m, (k - 1) as nat);
    }
}

/// The zero word has no ones.
pub proof fn lemma_count_zero(k: nat)
    ensures
        count_ones_below(0u32, k) == 0,
    decreases k,
{
    if k > 0 {
        lemma_count_zero((k - 1) as nat);
        let j = (k - 1) as u8;
        assert(0u32 & (1u32 << (j as u32)) == 0) by (bit_vector);
    }
}

/// A single set bit counts exactly once among the bits below `k`.
pub proof fn lemma_count_single_bit(c: u8, k: nat)
    requires
        c < 32,
        k <= 32,
    ensures
        count_ones_below(1u32 << (c as u32), k) == if c < k {
            1nat
        } else {
            0nat
        },
    decreases k,
{
    if k > 0 {
        lemma_count_single_bit(c, (k - 1) as nat);
        let j = (k - 1) as u8;
        assert((1u32 << (c as u32)) & (1u32 << (j as u32)) != 0 <==> c == j) by (bit_vector)
            requires
                c < 32,
                j < 32,
        ;
    }
}

/// Number of ones in a 32-bit word.
pub fn count_bits(m: u32) -> (r: u32)
    ensures
        r == count_ones(m),
        r <= 32,
{
    let mut acc: u32 = 0;
    let mut k: u32 = 0;
    while k < 32
        invariant
            k <= 32,
            acc == count_ones_below(m, k as nat),
            acc <= k,
        decreases 32 - k,
    {
        let bit = (m >> k) & 1;
        proof {
            assert(((m >> k) & 1 == 1) == mask_contains(m, k as u8) && (m >> k) & 1 <= 1)
                by (bit_vector)
                requires
                    k < 32,
            ;
        }
        acc = acc + bit;
        k = k + 1;
    }
    acc
}

/// The penalty of one trial, from the guessed and the true letter-set
/// masks: false positives weigh 1000, false negatives 4000, and the
/// weighted sum is squared, so multi-bit errors cost disproportionately.
/// Only the 26 letter bits are compared.
pub open spec fn penalty_spec(guess: u32, truth: u32) -> int {
    let x = guess ^ truth;
    let fp = count_ones(FULL_MASK & x & guess) as int;
    let fneg = count_ones(FULL_MASK & x & truth) as int;
    let base = fp * 1000 + fneg * 4000;
    base * base
}

/// The penalty of one trial.
pub fn penalty(guess: u32, truth: u32) -> (r: u64)
    ensures
        r as int == penalty_spec(guess, truth),
        r <= PENALTY_MAX,
{
    let x = guess ^ truth;
    let fp = count_bits(FULL_MASK & x & guess) as u64;
    let fneg = count_bits(FULL_MASK & x & truth) as u64;
    let base = fp * WEIGHT_FALSE_POSITIVE + fneg * WEIGHT_FALSE_NEGATIVE;
    proof {
        assert(base <= 160000);
        assert(base * base <= 160000 * 160000) by (nonlinear_arith)
            requires
                0 <= base <= 160000,
        ;
    }
    base * base
}

/// A guess equal to the truth costs nothing.
pub proof fn lemma_penalty_equal(s: u32)
    ensures
        penalty_spec(s, s) == 0,
{
    assert(FULL_MASK & (s ^ s) & s == 0) by (bit_vector);
    lemma_count_zero(32);
    assert(count_ones(FULL_MASK & (s ^ s) & s) == 0);
    let fpx = count_ones(FULL_MASK & (s ^ s) & s) as int;
    assert(fpx == 0);
    let base = fpx * 1000 + fpx * 4000;
    assert(base == 0);
    assert(base * base == 0);
    assert(penalty_spec(s, s) == base * base);
}

/// A guess with exactly one extra letter costs `(1·1000)² = 1,000,000`.
pub proof fn lemma_penalty_one_false_positive(truth: u32, c: u8)
    requires
        1 <= c <= 26,
        !mask_contains(truth, c),
    ensures
        penalty_spec(mask_set(truth, c), truth) == 1_000_000,
{
    let guess = mask_set(truth, c);
    let x = guess ^ truth;
    assert(FULL_MASK & x & guess == 1u32 << (c as u32) && FULL_MASK & x & truth == 0)
        by (bit_vector)
        requires
            1 <= c <= 26,
            truth & (1u32 << (c as u32)) == 0,
            guess == truth | (1u32 << (c as u32)),
            x == guess ^ truth,
    ;
    lemma_count_single_bit(c, 32);
    lemma_count_zero(32);
    let fp = count_ones(FULL_MASK & x & guess) as int;
    let fneg = count_ones(FULL_MASK & x & truth) as int;
    assert(fp == 1 && fneg == 0);
    let base = fp * 1000 + fneg * 4000;
    assert(base == 1000);
    assert(base * base == 1_000_000);
    assert(penalty_spec(guess, truth) == base * base);
}

/// A guess with exactly one letter missing costs `(1·4000)² = 16,000,000`.
pub proof fn lemma_penalty_one_false_negative(truth: u32, c: u8)
    requires
        1 <= c <= 26,
        mask_contains(truth, c),
    ensures
        penalty_spec(mask_clear(truth, c), truth) == 16_000_000,
{
    let guess = mask_clear(truth, c);
    let x = guess ^ truth;
    assert(FULL_MASK & x & truth == 1u32 << (c as u32) && FULL_MASK & x & guess == 0)
        by (bit_vector)
        requires
            1 <= c <= 26,
            truth & (1u32 << (c as u32)) != 0,
            guess == truth & !(1u32 << (c as u32)),
            x == guess ^ truth,
    ;
    lemma_count_single_bit(c, 32);
    lemma_count_zero(32);
    let fp = count_ones(FULL_MASK & x & guess) as int;
    let fneg = count_ones(FULL_MASK & x & truth) as int;
    assert(fp == 0 && fneg == 1);
    let base = fp * 1000 + fneg * 4000;
    assert(base == 4000);
    assert(base * base == 16_000_000);
    assert(penalty_spec(guess, truth) == base * base);
}

/// The register file loaded from a partial word: register `i + 1` holds
/// the single-bit encoding of the known letter at position `i`, or 0 when
/// that position is blank; the output register 0 starts at 0, the worst
/// default, to discourage empty programs.
pub open spec fn load_spec(s: Seq<u8>) -> Seq<u32> {
    Seq::new(
        32,
        |i: int|
            if 1 <= i <= SIZE && s[i - 1] != 0 {
                mask_set(0u32, s[i - 1])
            } else {
                0u32
            },
    )
}

/// What one trial of a program on one partial word costs: the machine is
/// loaded from the word, run to exhaustion, and its output register is
/// held against the oracle's true letter set for that exact word.
pub open spec fn trial_penalty(prog: Seq<SvmInstruction>, o: Oracle, s: Seq<u8>) -> int {
    penalty_spec(run_spec(prog, 0, load_spec(s))[0], o.lookup_spec(s))
}

/// A copy of an instruction sequence, for loading into a machine.
fn copy_program(prog: &Vec<SvmInstruction>) -> (r: Vec<SvmInstruction>)
    ensures
        r@ == prog@,
{
    let mut r: Vec<SvmInstruction> = Vec::new();
    let mut i: usize = 0;
    while i < prog.len()
        invariant
            i <= prog@.len(),
            r@ == prog@.take(i as int),
        decreases prog@.len() - i,
    {
        r.push(prog[i]);
        proof {
            assert(r@ =~= prog@.take(i + 1));
        }
        i = i + 1;
    }
    proof {
        assert(prog@.take(prog@.len() as int) =~= prog@);
    }
    r
}

/// Runs the program once on one partial word and returns the trial
/// penalty, exactly as [`trial_penalty`] states it.
pub fn fitness_single(prog: &Vec<SvmInstruction>, oracle: &Oracle, word: &PartialWord) -> (r: u64)
    requires
        prog_wf(prog@),
        word.wf(),
    ensures
        r as int == trial_penalty(prog@, *oracle, word@),
        r <= PENALTY_MAX,
{
    let p = copy_program(prog);
    let mut state = SvmState::new(p);
    let mut i: usize = 0;
    while i < SIZE
        invariant
            i <= SIZE,
            word.wf(),
            state.wf(),
            state.spec_instructions() == prog@,
            state.spec_pc() == 0,
            forall|j: int| 1 <= j <= i ==> state.spec_memory()[j] == load_spec(word@)[j],
            forall|j: int| (j == 0 || i < j < 32) ==> state.spec_memory()[j] == 0,
        decreases SIZE - i,
    {
        let slot = word.slot(i);
        let v: u32 = if slot != 0 {
            CharSet::empty().set(FChar::new(slot)).bits()
        } else {
            0
        };
        let m = state.memory_mut();
        m.set(i + 1, v);
        i = i + 1;
    }
    proof {
        assert(state.spec_memory() =~= load_spec(word@));
    }
    state.run_to_finish();
    let guess = state.get(0);
    let truth = oracle.lookup(word);
    penalty(guess, truth.bits())
}

/// Sampling failed: the oracle offered no letter for a reachable prefix
/// shorter than the target length, an internal-consistency failure.
#[derive(Debug, Clone, Copy, PartialEq, Eq, Structural)]
pub struct OracleMiss;

/// Every known slot names a letter the oracle offered for the prefix
/// before it.
pub open spec fn sampled_consistent(o: Oracle, s: Seq<u8>, k: int) -> bool {
    forall|i: int|
        0 <= i < k ==> mask_contains(o.lookup_spec(#[trigger] pw_prefix(s, i)), s[i])
}

/// A dead end the sampler can reach: a partial word with `k` known,
/// oracle-consistent letters whose own letter-set offer is empty.
pub open spec fn oracle_dead_end(o: Oracle, s: Seq<u8>, k: int) -> bool {
    &&& s.len() == SIZE
    &&& 0 <= k < SIZE
    &&& (forall|j: int| 0 <= j < s.len() ==> #[trigger] s[j] <= 26)
    &&& (forall|j: int| 0 <= j < k ==> s[j] != 0)
    &&& (forall|j: int| k <= j < SIZE ==> s[j] == 0)
    &&& sampled_consistent(o, s, k)
    &&& (forall|c: u8| 1 <= c <= 26 ==> !mask_contains(o.lookup_spec(s), c))
}

/// Builds a partial word with `num_to_fill` known letters by repeatedly
/// querying the oracle at the current prefix and extending it by one
/// uniformly chosen offered letter — so the sample is always a genuine,
/// oracle-consistent prefix. An empty offer on the way is reported as an
/// oracle miss.
pub fn sample_partial_word(oracle: &Oracle, rng: &mut rand::rngs::StdRng, num_to_fill: usize) -> (r:
    Result<PartialWord, OracleMiss>)
    requires
        num_to_fill <= SIZE,
    ensures
        match r {
            Ok(pw) => {
                &&& pw.wf()
                &&& (forall|j: int| 0 <= j < num_to_fill ==> pw@[j] != 0)
                &&& (forall|j: int| num_to_fill <= j < SIZE ==> pw@[j] == 0)
                &&& sampled_consistent(*oracle, pw@, num_to_fill as int)
            },
            Err(_) => exists|s: Seq<u8>, k: int|
                oracle_dead_end(*oracle, s, k) && k < num_to_fill,
        },
{
    let mut pw = PartialWord::empty();
    let mut filled: usize = 0;
    while filled < num_to_fill
        invariant
            filled <= num_to_fill <= SIZE,
            pw.wf(),
            forall|j: int| 0 <= j < filled ==> pw@[j] != 0,
            forall|j: int| filled <= j < SIZE ==> pw@[j] == 0,
            sampled_consistent(*oracle, pw@, filled as int),
        decreases num_to_fill - filled,
    {
        let set = oracle.lookup(&pw);
        let options = set.members();
        if options.len() == 0 {
            proof {
                assert forall|c: u8| 1 <= c <= 26 implies !mask_contains(
                    oracle.lookup_spec(pw@),
                    c,
                ) by {
                    if set.contains(c) {
                        assert(exists|i: int|
                            0 <= i < options@.len() && (#[trigger] options@[i]).spec_value() == c);
                    }
                }
                assert(oracle_dead_end(*oracle, pw@, filled as int));
            }
            return Err(OracleMiss);
        }
        let idx = rng_below(rng, options.len() as u64) as usize;
        let c = options[idx];
        let ghost pw0 = pw@;
        pw.fill(filled, c);
        proof {
            assert forall|i: int| 0 <= i < filled + 1 implies mask_contains(
                oracle.lookup_spec(#[trigger] pw_prefix(pw@, i)),
                pw@[i],
            ) by {
                if i < filled {
                    assert(pw_prefix(pw@, i) =~= pw_prefix(pw0, i));
                } else {
                    assert(pw_prefix(pw@, i) =~= pw0);
                }
            }
        }
        filled = filled + 1;
    }
    Ok(pw)
}

/// Every prefix the sampler can reach over a built oracle is a prefix of
/// some corpus word: each drawn letter was observed, so the letters so
/// far always spell the beginning of a word somebody trained on.
pub proof fn lemma_consistent_prefix_is_observed(o: Oracle, ws: Seq<Seq<u8>>, s: Seq<u8>, k: int)
    requires
        o@ == build_map(ws),
        ws.len() > 0,
        forall|a: int| 0 <= a < ws.len() ==> word_slots_wf(#[trigger] ws[a]),
        s.len() == SIZE,
        forall|j: int| 0 <= j < s.len() ==> #[trigger] s[j] <= 26,
        0 <= k <= SIZE,
        forall|j: int| 0 <= j < k ==> #[trigger] s[j] != 0,
        forall|j: int| k <= j < s.len() ==> #[trigger] s[j] == 0,
        sampled_consistent(o, s, k),
    ensures
        exists|i: int| 0 <= i < ws.len() && s == #[trigger] pw_prefix(ws[i], k),
    decreases k,
{
    if k == 0 {
        assert(s =~= pw_prefix(ws[0], 0));
    } else {
        let sp = pw_prefix(s, k - 1);
        assert forall|i: int| 0 <= i < k - 1 implies mask_contains(
            o.lookup_spec(#[trigger] pw_prefix(sp, i)),
            sp[i],
        ) by {
            assert(pw_prefix(sp, i) =~= pw_prefix(s, i));
            assert(sp[i] == s[i]);
        }
        lemma_consistent_prefix_is_observed(o, ws, sp, k - 1);
        let i0 = choose|i: int| 0 <= i < ws.len() && sp == #[trigger] pw_prefix(ws[i], k - 1);
        // The letter at position k-1 was offered for the prefix before it,
        // so some word continues that exact prefix with it.
        assert(mask_contains(o.lookup_spec(pw_prefix(s, k - 1)), s[k - 1]));
        assert(pw_prefix(s, k - 1) == sp);
        assert(slots_in_range(sp));
        o.lemma_characterize(ws, sp, s[k - 1]);
        assert(observed(ws, sp, s[k - 1]));
        let (i1, k1): (int, int) = choose|i1: int, k1: int|
            0 <= i1 < ws.len() && 0 <= k1 < SIZE && sp == #[trigger] pw_prefix(ws[i1], k1) && s[k
                - 1] == ws[i1][k1];
        // That word's prefix has exactly the k-1 known slots of `sp`.
        assert(k1 == k - 1) by {
            if k1 < k - 1 {
                assert(sp[k1] == s[k1] && s[k1] != 0);
                assert(pw_prefix(ws[i1], k1)[k1] == 0);
            }
            if k1 > k - 1 {
                assert(sp[k - 1] == 0);
                assert(pw_prefix(ws[i1], k1)[k - 1] == ws[i1][k - 1]);
                assert(1 <= ws[i1][k - 1]);
            }
        }
        assert forall|j: int| 0 <= j < SIZE implies s[j] == pw_prefix(ws[i1], k)[j] by {
            if j < k - 1 {
                assert(sp[j] == s[j]);
                assert(pw_prefix(ws[i1], k - 1)[j] == ws[i1][j]);
            }
        }
        assert(s =~= pw_prefix(ws[i1], k));
    }
}

/// Over an oracle built from a nonempty corpus the sampler has no
/// reachable dead end: an oracle miss during fitness evaluation cannot
/// happen, so scoring is owed to succeed.
pub proof fn lemma_sampler_never_dead_ends(o: Oracle, ws: Seq<Seq<u8>>, s: Seq<u8>, k: int)
    requires
        o@ == build_map(ws),
        ws.len() > 0,
        forall|a: int| 0 <= a < ws.len() ==> word_slots_wf(#[trigger] ws[a]),
    ensures
        !oracle_dead_end(o, s, k),
{
    if oracle_dead_end(o, s, k) {
        lemma_consistent_prefix_is_observed(o, ws, s, k);
        let i = choose|i: int| 0 <= i < ws.len() && s == #[trigger] pw_prefix(ws[i], k);
        crate::oracle::lemma_build_map_complete(ws, i, k);
        assert(mask_contains(o.lookup_spec(s), ws[i][k]));
        assert(1 <= ws[i][k] <= 26);
    }
}

/// The summed trial penalties of a program over a sequence of sampled
/// words.
pub open spec fn penalty_sum(prog: Seq<SvmInstruction>, o: Oracle, ws: Seq<Seq<u8>>) -> int
    decreases ws.len(),
{
    if ws.len() == 0 {
        0
    } else {
        penalty_sum(prog, o, ws.drop_last()) + trial_penalty(prog, o, ws.last())
    }
}

/// The scaled aggregate fitness over a sequence of sampled words:
/// `10·(sum of trial penalties) + (number of instructions)·trials`, the
/// exact mean-plus-length fitness `mean + 0.1·len` scaled by `10·trials`.
/// Lower is better.
pub open spec fn scaled_fitness(
    prog: Seq<SvmInstruction>,
    o: Oracle,
    ws: Seq<Seq<u8>>,
    trials: int,
) -> int {
    10 * penalty_sum(prog, o, ws) + prog.len() * trials
}

/// A partial word the sampler can deliver: between 2 and `SIZE - 1` known
/// slots — full words are intentionally excluded — trailing blanks, and
/// every known letter offered by the oracle for the prefix before it.
pub open spec fn sampled_word(o: Oracle, s: Seq<u8>) -> bool {
    &&& s.len() == SIZE
    &&& (forall|i: int| 0 <= i < s.len() ==> #[trigger] s[i] <= 26)
    &&& 2 <= known_prefix_len(s) < SIZE
    &&& (forall|j: int| known_prefix_len(s) <= j < s.len() ==> s[j] == 0)
    &&& sampled_consistent(o, s, known_prefix_len(s))
}

/// A sequence whose first `k` slots are nonzero and whose rest are zero
/// has a known prefix of exactly `k`.
pub proof fn lemma_known_prefix_len(s: Seq<u8>, k: int)
    requires
        0 <= k <= s.len(),
        forall|j: int| 0 <= j < k ==> s[j] != 0,
        forall|j: int| k <= j < s.len() ==> s[j] == 0,
    ensures
        known_prefix_len(s) == k,
    decreases s.len(),
{
    if s.len() > 0 && k > 0 {
        assert forall|j: int| 0 <= j < k - 1 implies s.drop_first()[j] != 0 by {
            assert(s.drop_first()[j] == s[j + 1]);
        }
        assert forall|j: int| k - 1 <= j < s.drop_first().len() implies s.drop_first()[j] == 0 by {
            assert(s.drop_first()[j] == s[j + 1]);
        }
        lemma_known_prefix_len(s.drop_first(), k - 1);
    }
}

/// Scores a program: `trials` Monte Carlo trials, each on a freshly
/// sampled oracle-consistent partial word with a uniformly chosen prefix
/// length in `[2, SIZE - 1]`, summed and combined with the parsimony term
/// as [`scaled_fitness`] states. An oracle miss while sampling aborts the
/// score, since the fitness would be meaningless.
pub fn fitness(
    prog: &Vec<SvmInstruction>,
    oracle: &Oracle,
    rng: &mut rand::rngs::StdRng,
    trials: usize,
) -> (r: Result<u64, OracleMiss>)
    requires
        prog_wf(prog@),
        prog@.len() <= PROGRAM_MAX,
        1 <= trials <= TRIALS_MAX,
    ensures
        match r {
            Ok(v) => exists|ws: Seq<Seq<u8>>|
                {
                    &&& ws.len() == trials
                    &&& (forall|t: int|
                        0 <= t < ws.len() ==> sampled_word(*oracle, #[trigger] ws[t]))
                    &&& v as int == scaled_fitness(prog@, *oracle, ws, trials as int)
                },
            Err(_) => exists|s: Seq<u8>, k: int|
                oracle_dead_end(*oracle, s, k) && k < SIZE - 1,
        },
{
    let mut sum: u64 = 0;
    let ghost mut ws = Seq::<Seq<u8>>::empty();
    let mut t: usize = 0;
    while t < trials
        invariant
            t <= trials <= TRIALS_MAX,
            prog_wf(prog@),
            prog@.len() <= PROGRAM_MAX,
            ws.len() == t,
            forall|x: int| 0 <= x < ws.len() ==> sampled_word(*oracle, #[trigger] ws[x]),
            sum as int == penalty_sum(prog@, *oracle, ws),
            sum <= t * PENALTY_MAX,
        decreases trials - t,
    {
        let num_to_fill = rng_range(rng, 2, SIZE as u64) as usize;
        let pw = match sample_partial_word(oracle, rng, num_to_fill) {
            Ok(p) => p,
            Err(e) => {
                return Err(e);
            },
        };
        let p = fitness_single(prog, oracle, &pw);
        proof {
            lemma_known_prefix_len(pw@, num_to_fill as int);
            assert(sampled_word(*oracle, pw@));
            let ws1 = ws.push(pw@);
            assert(ws1.drop_last() =~= ws);
            assert(ws1.last() == pw@);
            ws = ws1;
        }
        sum = sum + p;
        t = t + 1;
    }
    let len = prog.len() as u64;
    proof {
        assert(prog@.len() * trials <= 1_000_000_000_000 * 1_000_000) by (nonlinear_arith)
            requires
                0 <= prog@.len() <= 1_000_000_000_000,
                0 <= trials <= 1_000_000,
        ;
    }
    Ok(10 * sum + len * (trials as u64))
}

} // verus!
