//! The generational population loop: genomes, evaluation, selection and
//! reproduction, with self-adaptive mutation rates.
//!
//! Mutation rates are kept in millionths, so the whole engine works on
//! exact integers.

use crate::fitness::{
    fitness, oracle_dead_end, sampled_word, scaled_fitness, OracleMiss, PROGRAM_MAX, TRIALS_MAX,
};
use crate::genetics::{
    chosen_blocks, crossover, diff_spec, gene_le, gene_lt, gene_lt_exec, lemma_gene_trichotomy,
    sorted_genes, DiffTy, Gene,
};
use crate::oracle::{Oracle, SIZE};
use crate::rng::{rng_below, rng_coin, rng_range};
use crate::svm::SvmInstruction;
use vstd::prelude::*;

verus! {

use vstd::set_lib::{lemma_int_range, set_int_range};

/// The population's target size.
pub const GENEPOOL_SIZE: usize = 1000;

/// Gene count of a freshly initialized genome.
pub const INSTRUCTION_SIZE_INIT: usize = 32;

/// Size cap above which mutation stops inserting genes.
pub const INSTRUCTION_SIZE_MAX: usize = 1024;

/// Default trial count for one fitness evaluation.
pub const NUM_TRIALS: usize = 1000;

/// Smallest admissible mutation rate, in millionths (0.01).
pub const MUTATION_RATE_MIN: u32 = 10_000;

/// Largest admissible mutation rate, in millionths (0.9).
pub const MUTATION_RATE_MAX: u32 = 900_000;

/// Every fresh genome's mutation rate, in millionths (0.5).
pub const MUTATION_RATE_INIT: u32 = 500_000;

/// One, in millionths.
pub const PPM: u32 = 1_000_000;

/// Cap on the mutation events applied to one child, so the geometric
/// event loop provably terminates; with rates at most 0.9 the cap is
/// astronomically unlikely to be reached.
pub const MUTATION_EVENTS_MAX: u32 = 100_000;

/// Every gene's instruction has in-range operands.
pub open spec fn genes_wf(s: Seq<Gene>) -> bool {
    forall|i: int| 0 <= i < s.len() ==> (#[trigger] s[i]).ins.wf()
}

/// One genome: a gene sequence kept sorted by the gene order, an adaptive
/// mutation rate in millionths, and the fitness of its last evaluation —
/// `None` until it is first evaluated, lower is better.
#[derive(Debug, Clone)]
pub struct Genome {
    pub genes: Vec<Gene>,
    pub mutation_rate: u32,
    pub fitness: Option<u64>,
}

impl Genome {
    /// Sorted genes with in-range operands, and a rate in the band.
    pub open spec fn wf(self) -> bool {
        &&& sorted_genes(self.genes@)
        &&& genes_wf(self.genes@)
        &&& MUTATION_RATE_MIN <= self.mutation_rate <= MUTATION_RATE_MAX
    }

    /// The program the genome encodes: its instructions in gene order.
    pub fn program(&self) -> (r: Vec<SvmInstruction>)
        ensures
            r@ == self.genes@.map_values(|g: Gene| g.ins),
    {
        let mut r: Vec<SvmInstruction> = Vec::new();
        let mut i: usize = 0;
        while i < self.genes.len()
            invariant
                i <= self.genes@.len(),
                r@ == self.genes@.map_values(|g: Gene| g.ins).take(i as int),
            decreases self.genes@.len() - i,
        {
            r.push(self.genes[i].ins);
            proof {
                assert(r@ =~= self.genes@.map_values(|g: Gene| g.ins).take(i + 1));
            }
            i = i + 1;
        }
        proof {
            let m = self.genes@.map_values(|g: Gene| g.ins);
            assert(m.take(m.len() as int) =~= m);
        }
        r
    }
}

/// One random gene: a fresh uniform order key and a random instruction.
pub fn random_gene(rng: &mut rand::rngs::StdRng) -> (g: Gene)
    ensures
        g.ins.wf(),
{
    let order = rng_below(rng, u64::MAX);
    let ins = SvmInstruction::random(rng);
    Gene { order, ins }
}

/// Inserts a gene at its place in a sorted sequence, keeping it sorted.
pub fn insert_sorted(genes: &mut Vec<Gene>, g: Gene)
    requires
        sorted_genes(old(genes)@),
        genes_wf(old(genes)@),
        g.ins.wf(),
    ensures
        sorted_genes(final(genes)@),
        genes_wf(final(genes)@),
        final(genes)@.len() == old(genes)@.len() + 1,
        exists|i: int| 0 <= i <= old(genes)@.len() && final(genes)@ == old(genes)@.insert(i, g),
{
    let mut idx: usize = 0;
    while idx < genes.len() && gene_lt_exec(&genes[idx], &g)
        invariant
            idx <= genes@.len(),
            genes@ == old(genes)@,
            forall|j: int| 0 <= j < idx ==> gene_lt(#[trigger] genes@[j], g),
        decreases genes@.len() - idx,
    {
        idx = idx + 1;
    }
    proof {
        if idx < genes@.len() {
            assert(!gene_lt(genes@[idx as int], g));
        }
    }
    let ghost g0 = genes@;
    let ghost pos = idx as int;
    genes.insert(idx, g);
    proof {
        assert forall|i: int, j: int|
            0 <= i < j < genes@.len() implies gene_le(#[trigger] genes@[i], #[trigger] genes@[j]) by {
            lemma_gene_trichotomy(genes@[i], genes@[j]);
            if i < pos && j > pos {
                lemma_gene_trichotomy(g0[i], g);
                lemma_gene_trichotomy(g, g0[j - 1]);
                if pos < g0.len() {
                    assert(gene_le(g0[pos], g0[j - 1]));
                }
            } else if j == pos {
                assert(genes@[i] == g0[i] && gene_lt(g0[i], g));
            } else if i == pos {
                assert(genes@[j] == g0[j - 1]);
                if pos < g0.len() {
                    lemma_gene_trichotomy(g, g0[pos]);
                    assert(gene_le(g0[pos], g0[j - 1]));
                    crate::genetics::lemma_gene_le_trans(g, g0[pos], g0[j - 1]);
                }
            }
        }
        assert(genes_wf(genes@)) by {
            assert forall|i: int| 0 <= i < genes@.len() implies (#[trigger] genes@[i]).ins.wf() by {
                if i < pos {
                    assert(genes@[i] == g0[i]);
                } else if i > pos {
                    assert(genes@[i] == g0[i - 1]);
                }
            }
        }
    }
}

/// A fresh random genome: `count` random genes, kept sorted, the initial
/// mutation rate, and no fitness yet.
pub fn random_genome(rng: &mut rand::rngs::StdRng, count: usize) -> (g: Genome)
    ensures
        g.wf(),
        g.genes@.len() == count,
        g.mutation_rate == MUTATION_RATE_INIT,
        g.fitness is None,
{
    let mut genes: Vec<Gene> = Vec::new();
    let mut i: usize = 0;
    while i < count
        invariant
            i <= count,
            genes@.len() == i,
            sorted_genes(genes@),
            genes_wf(genes@),
        decreases count - i,
    {
        let g = random_gene(rng);
        insert_sorted(&mut genes, g);
        i = i + 1;
    }
    Genome { genes, mutation_rate: MUTATION_RATE_INIT, fitness: None }
}

/// The band every mutation rate lives in.
pub open spec fn rate_in_band(r: u32) -> bool {
    MUTATION_RATE_MIN <= r <= MUTATION_RATE_MAX
}

/// The admissible band applied to a raw perturbed rate.
pub open spec fn clamp_rate(x: int) -> int {
    if x > MUTATION_RATE_MAX {
        MUTATION_RATE_MAX as int
    } else if x < MUTATION_RATE_MIN {
        MUTATION_RATE_MIN as int
    } else {
        x
    }
}

/// The child's mutation rate: a value drawn uniformly between the two
/// parents' rates (exactly that rate when they are equal), perturbed by
/// a factor drawn uniformly from ±5%, and clamped into the admissible
/// band.
pub fn child_mutation_rate(rng: &mut rand::rngs::StdRng, r1: u32, r2: u32) -> (r: u32)
    requires
        rate_in_band(r1),
        rate_in_band(r2),
    ensures
        rate_in_band(r),
        exists|base: int, f: int|
            {
                &&& (if r1 == r2 {
                    base == r1
                } else {
                    vstd::math::min(r1 as int, r2 as int) <= base < vstd::math::max(
                        r1 as int,
                        r2 as int,
                    )
                })
                &&& 950_000 <= f < 1_050_000
                &&& r == #[trigger] clamp_rate(base * f / (PPM as int))
            },
{
    let lo = if r1 <= r2 {
        r1
    } else {
        r2
    };
    let hi = if r1 <= r2 {
        r2
    } else {
        r1
    };
    let base: u32 = if lo == hi {
        lo
    } else {
        rng_range(rng, lo as u64, hi as u64) as u32
    };
    let factor = 950_000 + rng_below(rng, 100_000);
    proof {
        assert((base as int) * (factor as int) <= 900_000 * 1_050_000) by (nonlinear_arith)
            requires
                0 <= base <= 900_000,
                0 <= factor <= 1_050_000,
        ;
    }
    let scaled_wide = (base as u64) * factor / (PPM as u64);
    let scaled = scaled_wide as u32;
    let r = if scaled > MUTATION_RATE_MAX {
        MUTATION_RATE_MAX
    } else if scaled < MUTATION_RATE_MIN {
        MUTATION_RATE_MIN
    } else {
        scaled
    };
    proof {
        assert(r == clamp_rate((base as int) * (factor as int) / (PPM as int)));
    }
    r
}

/// One self-adaptive mutation event: a single gene inserted at one place,
/// or a single gene removed.
pub enum MutationEvent {
    Insert { gene: Gene, at: int },
    Remove { at: int },
}

/// The gene sequence after one mutation event; an out-of-range event, or
/// an insertion into a full genome, changes nothing.
pub open spec fn apply_event(s: Seq<Gene>, e: MutationEvent) -> Seq<Gene> {
    match e {
        MutationEvent::Insert { gene, at } => if 0 <= at <= s.len() && s.len()
            < INSTRUCTION_SIZE_MAX {
            s.insert(at, gene)
        } else {
            s
        },
        MutationEvent::Remove { at } => if 0 <= at < s.len() {
            s.remove(at)
        } else {
            s
        },
    }
}

/// The gene sequence after a series of mutation events.
pub open spec fn apply_events(s: Seq<Gene>, es: Seq<MutationEvent>) -> Seq<Gene>
    decreases es.len(),
{
    if es.len() == 0 {
        s
    } else {
        apply_events(apply_event(s, es[0]), es.drop_first())
    }
}

/// One more event at the end applies after all the earlier ones.
pub proof fn lemma_apply_events_push(s: Seq<Gene>, es: Seq<MutationEvent>, e: MutationEvent)
    ensures
        apply_events(s, es.push(e)) == apply_event(apply_events(s, es), e),
    decreases es.len(),
{
    let esp = es.push(e);
    if es.len() == 0 {
        assert(esp.drop_first() =~= Seq::<MutationEvent>::empty());
        assert(apply_events(apply_event(s, e), Seq::<MutationEvent>::empty()) == apply_event(
            s,
            e,
        ));
    } else {
        assert(esp.drop_first() =~= es.drop_first().push(e));
        assert(esp[0] == es[0]);
        lemma_apply_events_push(apply_event(s, es[0]), es.drop_first(), e);
    }
}

/// Applies the self-adaptive mutation events to a genome: while a fresh
/// uniform draw falls below its mutation rate, either insert one new
/// random gene at its sorted place (if the genome is under the size cap)
/// or delete one uniformly chosen gene. The new gene sequence is exactly
/// the old one under some such series of single-gene events.
pub fn mutate(rng: &mut rand::rngs::StdRng, genome: &mut Genome)
    requires
        old(genome).wf(),
    ensures
        final(genome).wf(),
        final(genome).mutation_rate == old(genome).mutation_rate,
        final(genome).fitness == old(genome).fitness,
        final(genome).genes@.len() <= vstd::math::max(
            old(genome).genes@.len() as int,
            INSTRUCTION_SIZE_MAX as int,
        ),
        exists|es: Seq<MutationEvent>|
            {
                &&& es.len() <= MUTATION_EVENTS_MAX
                &&& (forall|t: int|
                    0 <= t < es.len() ==> (#[trigger] es[t] matches MutationEvent::Insert {
                        gene,
                        at,
                    } ==> gene.ins.wf()))
                &&& final(genome).genes@ == #[trigger] apply_events(old(genome).genes@, es)
            },
{
    let mut events: u32 = 0;
    let ghost mut trace = Seq::<MutationEvent>::empty();
    loop
        invariant
            genome.wf(),
            genome.mutation_rate == old(genome).mutation_rate,
            genome.fitness == old(genome).fitness,
            genome.genes@.len() <= vstd::math::max(
                old(genome).genes@.len() as int,
                INSTRUCTION_SIZE_MAX as int,
            ),
            events <= MUTATION_EVENTS_MAX,
            trace.len() <= events,
            forall|t: int|
                0 <= t < trace.len() ==> (#[trigger] trace[t] matches MutationEvent::Insert {
                    gene,
                    at,
                } ==> gene.ins.wf()),
            genome.genes@ == apply_events(old(genome).genes@, trace),
        ensures
            genome.wf(),
            genome.mutation_rate == old(genome).mutation_rate,
            genome.fitness == old(genome).fitness,
            genome.genes@.len() <= vstd::math::max(
                old(genome).genes@.len() as int,
                INSTRUCTION_SIZE_MAX as int,
            ),
            trace.len() <= MUTATION_EVENTS_MAX,
            forall|t: int|
                0 <= t < trace.len() ==> (#[trigger] trace[t] matches MutationEvent::Insert {
                    gene,
                    at,
                } ==> gene.ins.wf()),
            genome.genes@ == apply_events(old(genome).genes@, trace),
        decreases MUTATION_EVENTS_MAX - events,
    {
        if events >= MUTATION_EVENTS_MAX {
            break ;
        }
        let draw = rng_below(rng, PPM as u64);
        if draw >= genome.mutation_rate as u64 {
            break ;
        }
        if rng_coin(rng) && genome.genes.len() < INSTRUCTION_SIZE_MAX {
            let ghost g0 = genome.genes@;
            let g = random_gene(rng);
            insert_sorted(&mut genome.genes, g);
            proof {
                let at = choose|i: int| 0 <= i <= g0.len() && genome.genes@ == g0.insert(i, g);
                let e = MutationEvent::Insert { gene: g, at };
                lemma_apply_events_push(old(genome).genes@, trace, e);
                trace = trace.push(e);
            }
        } else {
            if genome.genes.len() > 0 {
                let idx = rng_below(rng, genome.genes.len() as u64) as usize;
                let ghost g0 = genome.genes@;
                genome.genes.remove(idx);
                proof {
                    let e = MutationEvent::Remove { at: idx as int };
                    lemma_apply_events_push(old(genome).genes@, trace, e);
                    trace = trace.push(e);
                    assert forall|i: int, j: int|
                        0 <= i < j < genome.genes@.len() implies gene_le(
                        #[trigger] genome.genes@[i],
                        #[trigger] genome.genes@[j],
                    ) by {
                        let i0: int = if i < idx {
                            i
                        } else {
                            i + 1
                        };
                        let j0: int = if j < idx {
                            j
                        } else {
                            j + 1
                        };
                        assert(genome.genes@[i] == g0[i0] && genome.genes@[j] == g0[j0]);
                    }
                    assert forall|i: int|
                        0 <= i < genome.genes@.len() implies (#[trigger] genome.genes@[i]).ins.wf() by {
                        let i0: int = if i < idx {
                            i
                        } else {
                            i + 1
                        };
                        assert(genome.genes@[i] == g0[i0]);
                    }
                }
            }
        }
        events = events + 1;
    }
}

/// The exact relation of one reproduction step: the child's genes are
/// the kept diff blocks of the two parents' genes under the coin sequence
/// `keep`, then the single-gene mutation events `es`; its rate is a
/// blended-and-perturbed pair of the parents' rates; it is unevaluated.
pub open spec fn reproduction_step(
    p1: Genome,
    p2: Genome,
    keep: Seq<bool>,
    es: Seq<MutationEvent>,
    g: Genome,
) -> bool {
    let blocks = diff_spec(p1.genes@, p2.genes@);
    &&& keep.len() == blocks.len()
    &&& (forall|k: int| 0 <= k < keep.len() && blocks[k].0 == DiffTy::Both ==> keep[k])
    &&& es.len() <= MUTATION_EVENTS_MAX
    &&& (forall|t: int|
        0 <= t < es.len() ==> (#[trigger] es[t] matches MutationEvent::Insert { gene, at }
            ==> gene.ins.wf()))
    &&& g.genes@ == apply_events(chosen_blocks(blocks, keep), es)
    &&& (exists|base: int, f: int|
        {
            &&& (if p1.mutation_rate == p2.mutation_rate {
                base == p1.mutation_rate
            } else {
                vstd::math::min(p1.mutation_rate as int, p2.mutation_rate as int) <= base
                    < vstd::math::max(p1.mutation_rate as int, p2.mutation_rate as int)
            })
            &&& 950_000 <= f < 1_050_000
            &&& g.mutation_rate == #[trigger] clamp_rate(base * f / (PPM as int))
        })
    &&& g.fitness is None
}

/// A genome one reproduction step could produce from the given survivor
/// pool.
pub open spec fn possible_child(parents: Seq<Genome>, g: Genome) -> bool {
    exists|i1: int, i2: int, keep: Seq<bool>, es: Seq<MutationEvent>|
        {
            &&& 0 <= i1 < parents.len()
            &&& 0 <= i2 < parents.len()
            &&& #[trigger] reproduction_step(parents[i1], parents[i2], keep, es, g)
        }
}

/// Fitness key of an evaluated genome.
pub open spec fn fit_of(g: Genome) -> u64
    recommends
        g.fitness is Some,
{
    g.fitness.unwrap()
}

/// The pool is sorted ascending by fitness: best first.
pub open spec fn sorted_by_fitness(s: Seq<Genome>) -> bool {
    forall|i: int, j: int| 0 <= i < j < s.len() ==> fit_of(#[trigger] s[i]) <= fit_of(#[trigger] s[j])
}

/// A value the Monte Carlo scorer could report for this genome: the
/// scaled fitness over some sequence of `trials` sampled words.
pub open spec fn evaluated_score(g: Genome, o: Oracle, trials: int, v: u64) -> bool {
    exists|ws: Seq<Seq<u8>>|
        {
            &&& ws.len() == trials
            &&& (forall|t: int| 0 <= t < ws.len() ==> sampled_word(o, #[trigger] ws[t]))
            &&& v as int == scaled_fitness(g.genes@.map_values(|gn: Gene| gn.ins), o, ws, trials)
        }
}

/// Whether the genome at sorted rank `rank` survives the uniform draw
/// `draw` from `0..n`: rank 0 always survives — the explicit floor that
/// keeps the survivor set nonempty — and otherwise the genome survives
/// exactly the draws at or above its rank, `n − rank` of the `n`.
pub open spec fn survives(rank: int, draw: int) -> bool {
    rank == 0 || draw >= rank
}

/// The survivors among ranks `r..` of the pool, given the per-rank draws.
pub open spec fn select_from(s: Seq<Genome>, draws: Seq<int>, r: int) -> Seq<Genome>
    decreases s.len() - r,
{
    if r < 0 || r >= s.len() {
        Seq::empty()
    } else {
        (if survives(r, draws[r]) {
            seq![s[r]]
        } else {
            Seq::empty()
        }) + select_from(s, draws, r + 1)
    }
}

/// The survivors depend only on the draws for the ranks considered.
pub proof fn lemma_select_from_agree(s: Seq<Genome>, d1: Seq<int>, d2: Seq<int>, r: int)
    requires
        forall|j: int| r <= j < s.len() ==> d1[j] == d2[j],
    ensures
        select_from(s, d1, r) == select_from(s, d2, r),
    decreases s.len() - r,
{
    if 0 <= r < s.len() {
        lemma_select_from_agree(s, d1, d2, r + 1);
    }
}

/// Every survivor is one of the pool's genomes.
pub proof fn lemma_select_from_elements(s: Seq<Genome>, draws: Seq<int>, r: int)
    ensures
        forall|i: int|
            0 <= i < select_from(s, draws, r).len() ==> s.contains(
                #[trigger] select_from(s, draws, r)[i],
            ),
    decreases s.len() - r,
{
    if 0 <= r < s.len() {
        lemma_select_from_elements(s, draws, r + 1);
        let out = select_from(s, draws, r);
        let rest = select_from(s, draws, r + 1);
        assert forall|i: int| 0 <= i < out.len() implies s.contains(#[trigger] out[i]) by {
            if survives(r, draws[r]) && i == 0 {
                assert(out[0] == s[r]);
            } else {
                let off: int = if survives(r, draws[r]) {
                    1
                } else {
                    0
                };
                assert(out[i] == rest[i - off]);
            }
        }
    }
}

/// Survival is monotone non-increasing in rank: rank 0 survives every
/// draw; any draw that keeps rank `i + 1` keeps rank `i`; and of the `n`
/// equally likely draws `0..n`, exactly `n − i` keep rank `i` — so rank 0
/// survives with probability 1 and rank `n − 1` with probability `1/n`.
pub proof fn lemma_selection_survival(n: int, i: int)
    requires
        0 <= i < n,
    ensures
        forall|d: int| survives(0, d),
        forall|d: int| survives(i + 1, d) ==> survives(i, d),
        Set::new(|d: int| 0 <= d < n && survives(i, d)).len() == n - i,
{
    if i == 0 {
        assert(Set::new(|d: int| 0 <= d < n && survives(0, d)) =~= set_int_range(0, n));
        lemma_int_range(0, n);
    } else {
        assert(Set::new(|d: int| 0 <= d < n && survives(i, d)) =~= set_int_range(i, n));
        lemma_int_range(i, n);
    }
}

/// The population: the genome pool and the generation counter.
#[derive(Debug)]
pub struct Population {
    pub pool: Vec<Genome>,
    pub round: u64,
}

impl Population {
    /// Every genome in the pool is well formed.
    pub open spec fn wf(self) -> bool {
        forall|i: int| 0 <= i < self.pool@.len() ==> (#[trigger] self.pool@[i]).wf()
    }

    /// A fresh population: `n` random genomes of `genes_per_genome` genes
    /// each, all with the initial mutation rate, at generation 1.
    pub fn init(rng: &mut rand::rngs::StdRng, n: usize, genes_per_genome: usize) -> (p: Population)
        ensures
            p.wf(),
            p.pool@.len() == n,
            p.round == 1,
            forall|i: int|
                0 <= i < n ==> {
                    &&& (#[trigger] p.pool@[i]).genes@.len() == genes_per_genome
                    &&& p.pool@[i].mutation_rate == MUTATION_RATE_INIT
                    &&& p.pool@[i].fitness is None
                },
    {
        let mut pool: Vec<Genome> = Vec::new();
        let mut i: usize = 0;
        while i < n
            invariant
                i <= n,
                pool@.len() == i,
                forall|j: int|
                    0 <= j < i ==> {
                        &&& (#[trigger] pool@[j]).wf()
                        &&& pool@[j].genes@.len() == genes_per_genome
                        &&& pool@[j].mutation_rate == MUTATION_RATE_INIT
                        &&& pool@[j].fitness is None
                    },
            decreases n - i,
        {
            let g = random_genome(rng, genes_per_genome);
            pool.push(g);
            i = i + 1;
        }
        Population { pool, round: 1 }
    }

    /// Scores every genome afresh against the oracle: each gets the
    /// scaled fitness of `trials` Monte Carlo trials. An oracle miss
    /// while sampling aborts the pass.
    pub fn evaluate(
        &mut self,
        oracle: &Oracle,
        rng: &mut rand::rngs::StdRng,
        trials: usize,
    ) -> (r: Result<(), OracleMiss>)
        requires
            old(self).wf(),
            1 <= trials <= TRIALS_MAX,
            forall|i: int|
                0 <= i < old(self).pool@.len() ==> (#[trigger] old(self).pool@[i]).genes@.len()
                    <= PROGRAM_MAX,
        ensures
            final(self).wf(),
            final(self).round == old(self).round,
            final(self).pool@.len() == old(self).pool@.len(),
            forall|i: int|
                0 <= i < final(self).pool@.len() ==> {
                    &&& (#[trigger] final(self).pool@[i]).genes == old(self).pool@[i].genes
                    &&& final(self).pool@[i].mutation_rate == old(self).pool@[i].mutation_rate
                },
            r is Ok ==> forall|i: int|
                0 <= i < final(self).pool@.len() ==> {
                    &&& (#[trigger] final(self).pool@[i]).fitness is Some
                    &&& evaluated_score(
                        final(self).pool@[i],
                        *oracle,
                        trials as int,
                        final(self).pool@[i].fitness.unwrap(),
                    )
                },
            r is Err ==> exists|s: Seq<u8>, k: int|
                oracle_dead_end(*oracle, s, k) && k < SIZE - 1,
    {
        let n = self.pool.len();
        let mut i: usize = 0;
        while i < n
            invariant
                i <= n,
                n == self.pool@.len(),
                n == old(self).pool@.len(),
                self.round == old(self).round,
                self.wf(),
                1 <= trials <= TRIALS_MAX,
                forall|j: int|
                    0 <= j < n ==> {
                        &&& (#[trigger] self.pool@[j]).genes == old(self).pool@[j].genes
                        &&& self.pool@[j].mutation_rate == old(self).pool@[j].mutation_rate
                        &&& self.pool@[j].genes@.len() <= PROGRAM_MAX
                    },
                forall|j: int|
                    0 <= j < i ==> {
                        &&& (#[trigger] self.pool@[j]).fitness is Some
                        &&& evaluated_score(
                            self.pool@[j],
                            *oracle,
                            trials as int,
                            self.pool@[j].fitness.unwrap(),
                        )
                    },
            decreases n - i,
        {
            let prog = self.pool[i].program();
            proof {
                assert forall|k: int| 0 <= k < prog@.len() implies (#[trigger] prog@[k]).wf() by {
                    assert(prog@[k] == self.pool@[i as int].genes@[k].ins);
                }
            }
            let v = match fitness(&prog, oracle, rng, trials) {
                Ok(v) => v,
                Err(e) => {
                    return Err(e);
                },
            };
            self.pool[i].fitness = Some(v);
            i = i + 1;
        }
        Ok(())
    }

    /// Sorts the pool ascending by fitness — best genome first. The pool
    /// afterwards holds exactly the same genomes.
    pub fn sort(&mut self)
        requires
            old(self).wf(),
            forall|i: int|
                0 <= i < old(self).pool@.len() ==> (#[trigger] old(self).pool@[i]).fitness
                    is Some,
        ensures
            final(self).wf(),
            final(self).round == old(self).round,
            final(self).pool@.len() == old(self).pool@.len(),
            sorted_by_fitness(final(self).pool@),
            final(self).pool@.to_multiset() == old(self).pool@.to_multiset(),
            forall|i: int|
                0 <= i < final(self).pool@.len() ==> (#[trigger] final(self).pool@[i]).fitness
                    is Some,
    {
        broadcast use vstd::multiset::group_multiset_axioms;

        let ghost orig = self.pool@;
        let mut out: Vec<Genome> = Vec::new();
        proof {
            out@.to_multiset_ensures();
            assert(out@.to_multiset() =~= vstd::multiset::Multiset::<Genome>::empty());
            assert(out@.to_multiset().add(self.pool@.to_multiset()) =~= self.pool@.to_multiset());
        }
        while self.pool.len() > 0
            invariant
                self.round == old(self).round,
                orig == old(self).pool@,
                out@.len() + self.pool@.len() == orig.len(),
                out@.to_multiset().add(self.pool@.to_multiset()) == orig.to_multiset(),
                forall|i: int|
                    0 <= i < self.pool@.len() ==> (#[trigger] self.pool@[i]).wf()
                        && self.pool@[i].fitness is Some,
                forall|i: int|
                    0 <= i < out@.len() ==> (#[trigger] out@[i]).wf() && out@[i].fitness is Some,
                sorted_by_fitness(out@),
                forall|i: int, j: int|
                    0 <= i < out@.len() && 0 <= j < self.pool@.len() ==> fit_of(#[trigger] out@[i])
                        <= fit_of(#[trigger] self.pool@[j]),
            decreases self.pool@.len(),
        {
            let mut mi: usize = 0;
            let mut k: usize = 1;
            while k < self.pool.len()
                invariant
                    mi < k <= self.pool@.len(),
                    self.pool@.len() > 0,
                    forall|j: int|
                        0 <= j < self.pool@.len() ==> (#[trigger] self.pool@[j]).fitness is Some,
                    forall|t: int|
                        0 <= t < k ==> fit_of(self.pool@[mi as int]) <= fit_of(
                            #[trigger] self.pool@[t],
                        ),
                decreases self.pool@.len() - k,
            {
                if self.pool[k].fitness.unwrap() < self.pool[mi].fitness.unwrap() {
                    mi = k;
                }
                k = k + 1;
            }
            let ghost pool0 = self.pool@;
            let ghost out0 = out@;
            let g = self.pool.remove(mi);
            out.push(g);
            proof {
                vstd::seq_lib::to_multiset_build(out0, g);
                vstd::seq_lib::to_multiset_remove(pool0, mi as int);
                pool0.to_multiset_ensures();
                assert(pool0.contains(g)) by {
                    assert(pool0[mi as int] == g);
                }
                assert(pool0.to_multiset().count(g) > 0);
                assert(out@.to_multiset().add(self.pool@.to_multiset()) =~= orig.to_multiset());
                assert forall|i: int, j: int|
                    0 <= i < out@.len() && 0 <= j < self.pool@.len() implies fit_of(
                    #[trigger] out@[i],
                ) <= fit_of(#[trigger] self.pool@[j]) by {
                    let j0: int = if j < mi {
                        j
                    } else {
                        j + 1
                    };
                    assert(self.pool@[j] == pool0[j0]);
                    if i < out@.len() - 1 {
                        assert(fit_of(out@[i]) <= fit_of(pool0[j0]));
                    } else {
                        assert(fit_of(g) <= fit_of(pool0[j0]));
                    }
                }
            }
        }
        proof {
            self.pool@.to_multiset_ensures();
            assert(self.pool@.to_multiset() =~= vstd::multiset::Multiset::<Genome>::empty());
            assert(out@.to_multiset() =~= orig.to_multiset());
        }
        self.pool = out;
    }

    /// One selection pass: the genome at sorted rank `i` of `n` survives
    /// a fresh uniform draw from `0..n` with probability `1 − i/n`, with
    /// rank 0 always retained, so the survivor set is never empty.
    pub fn select(&mut self, rng: &mut rand::rngs::StdRng)
        requires
            old(self).wf(),
            old(self).pool@.len() >= 1,
        ensures
            final(self).wf(),
            final(self).round == old(self).round,
            1 <= final(self).pool@.len() <= old(self).pool@.len(),
            final(self).pool@[0] == old(self).pool@[0],
            forall|i: int|
                0 <= i < final(self).pool@.len() ==> old(self).pool@.contains(
                    #[trigger] final(self).pool@[i],
                ),
            exists|draws: Seq<int>|
                {
                    &&& draws.len() == old(self).pool@.len()
                    &&& (forall|i: int|
                        0 <= i < draws.len() ==> 0 <= #[trigger] draws[i] < old(
                            self,
                        ).pool@.len())
                    &&& final(self).pool@ == #[trigger] select_from(old(self).pool@, draws, 0)
                },
    {
        let ghost orig = self.pool@;
        let n = self.pool.len();
        let ghost mut draws = Seq::<int>::new(n as nat, |i: int| 0int);
        let mut out: Vec<Genome> = Vec::new();
        let mut r: usize = n;
        while r > 0
            invariant
                r <= n,
                n == orig.len(),
                self.round == old(self).round,
                self.pool@ == orig.take(r as int),
                orig == old(self).pool@,
                forall|i: int| 0 <= i < orig.len() ==> (#[trigger] orig[i]).wf(),
                draws.len() == n,
                forall|j: int| r <= j < n ==> 0 <= #[trigger] draws[j] < n,
                out@ == select_from(orig, draws, r as int),
            decreases r,
        {
            let g = self.pool.pop().unwrap();
            let rank = r - 1;
            let d = rng_below(rng, n as u64) as usize;
            proof {
                assert(orig.take(r as int).drop_last() =~= orig.take(r - 1));
                assert(g == orig[r - 1]);
            }
            let keep = rank == 0 || d >= rank;
            let ghost draws0 = draws;
            proof {
                draws = draws.update(rank as int, d as int);
                lemma_select_from_agree(orig, draws0, draws, r as int);
                assert(select_from(orig, draws, r as int) == out@);
            }
            if keep {
                out.insert(0, g);
            }
            proof {
                assert(survives(rank as int, draws[rank as int]) == keep);
                if keep {
                    assert(out@ =~= seq![orig[rank as int]] + select_from(
                        orig,
                        draws,
                        r as int,
                    ));
                } else {
                    assert(out@ =~= Seq::<Genome>::empty() + select_from(orig, draws, r as int));
                }
            }
            r = rank;
        }
        self.pool = out;
        proof {
            lemma_select_from_elements(orig, draws, 0);
            assert(survives(0, draws[0]));
            assert(select_from(orig, draws, 0).len() >= 1) by {
                assert(select_from(orig, draws, 0) == seq![orig[0]] + select_from(orig, draws, 1));
            }
            assert(self.pool@[0] == orig[0]) by {
                assert(select_from(orig, draws, 0) == seq![orig[0]] + select_from(orig, draws, 1));
            }
            assert(self.pool@.len() <= orig.len()) by {
                lemma_select_from_len(orig, draws, 0);
            }
            assert forall|i: int| 0 <= i < self.pool@.len() implies (#[trigger] self.pool@[i]).wf() by {
                assert(orig.contains(self.pool@[i]));
                let k = choose|k: int| 0 <= k < orig.len() && orig[k] == self.pool@[i];
            }
        }
    }

    /// Refills the pool to `target` genomes: each child is the crossover
    /// of two parents picked uniformly with replacement from the
    /// survivors, given a blended-and-perturbed mutation rate, then
    /// mutated — exactly as [`possible_child`] states it. The survivors
    /// stay in place, at the front.
    pub fn reproduce(&mut self, rng: &mut rand::rngs::StdRng, target: usize)
        requires
            old(self).wf(),
            1 <= old(self).pool@.len() <= target,
            forall|i: int|
                0 <= i < old(self).pool@.len() ==> (#[trigger] old(self).pool@[i]).genes@.len() * 2
                    <= PROGRAM_MAX,
        ensures
            final(self).wf(),
            final(self).round == old(self).round,
            final(self).pool@.len() == target,
            final(self).pool@.take(old(self).pool@.len() as int) == old(self).pool@,
            forall|i: int|
                0 <= i < target ==> (#[trigger] final(self).pool@[i]).genes@.len() <= PROGRAM_MAX,
            forall|i: int|
                old(self).pool@.len() <= i < target ==> (#[trigger] final(self).pool@[i]).fitness
                    is None,
            forall|i: int|
                old(self).pool@.len() <= i < target ==> possible_child(
                    old(self).pool@,
                    #[trigger] final(self).pool@[i],
                ),
    {
        let parents_end = self.pool.len();
        while self.pool.len() < target
            invariant
                1 <= parents_end <= self.pool@.len() <= target,
                parents_end == old(self).pool@.len(),
                self.round == old(self).round,
                self.pool@.take(parents_end as int) == old(self).pool@,
                self.wf(),
                forall|i: int|
                    0 <= i < parents_end ==> (#[trigger] self.pool@[i]).genes@.len() * 2
                        <= PROGRAM_MAX,
                forall|i: int|
                    0 <= i < self.pool@.len() ==> (#[trigger] self.pool@[i]).genes@.len()
                        <= PROGRAM_MAX,
                forall|i: int|
                    parents_end <= i < self.pool@.len() ==> (#[trigger] self.pool@[i]).fitness
                        is None,
                forall|i: int|
                    parents_end <= i < self.pool@.len() ==> possible_child(
                        old(self).pool@,
                        #[trigger] self.pool@[i],
                    ),
            decreases target - self.pool@.len(),
        {
            let i1 = rng_below(rng, parents_end as u64) as usize;
            let i2 = rng_below(rng, parents_end as u64) as usize;
            proof {
                assert(self.pool@[i1 as int] == old(self).pool@[i1 as int]);
                assert(self.pool@[i2 as int] == old(self).pool@[i2 as int]);
            }
            let genes = crossover(rng, &self.pool[i1].genes, &self.pool[i2].genes);
            let ghost a = self.pool@[i1 as int].genes@;
            let ghost b = self.pool@[i2 as int].genes@;
            let ghost mid = genes@;
            proof {
                assert forall|k: int| 0 <= k < genes@.len() implies (#[trigger] genes@[k]).ins.wf() by {
                    if a.contains(genes@[k]) {
                        let t = choose|t: int| 0 <= t < a.len() && a[t] == genes@[k];
                    } else {
                        let t = choose|t: int| 0 <= t < b.len() && b[t] == genes@[k];
                    }
                }
            }
            let rate = child_mutation_rate(
                rng,
                self.pool[i1].mutation_rate,
                self.pool[i2].mutation_rate,
            );
            let ghost r1 = self.pool@[i1 as int].mutation_rate;
            let ghost r2 = self.pool@[i2 as int].mutation_rate;
            let mut child = Genome { genes, mutation_rate: rate, fitness: None };
            mutate(rng, &mut child);
            proof {
                let keep = choose|keep: Seq<bool>|
                    {
                        &&& keep.len() == diff_spec(a, b).len()
                        &&& (forall|k: int|
                            0 <= k < keep.len() && diff_spec(a, b)[k].0 == DiffTy::Both
                                ==> keep[k])
                        &&& mid == #[trigger] chosen_blocks(diff_spec(a, b), keep)
                    };
                let es = choose|es: Seq<MutationEvent>|
                    {
                        &&& es.len() <= MUTATION_EVENTS_MAX
                        &&& (forall|t: int|
                            0 <= t < es.len() ==> (#[trigger] es[t]
                                matches MutationEvent::Insert { gene, at } ==> gene.ins.wf()))
                        &&& child.genes@ == #[trigger] apply_events(mid, es)
                    };
                let (base, f): (int, int) = choose|base: int, f: int|
                    {
                        &&& (if r1 == r2 {
                            base == r1
                        } else {
                            vstd::math::min(r1 as int, r2 as int) <= base < vstd::math::max(
                                r1 as int,
                                r2 as int,
                            )
                        })
                        &&& 950_000 <= f < 1_050_000
                        &&& rate == #[trigger] clamp_rate(base * f / (PPM as int))
                    };
                assert(reproduction_step(
                    old(self).pool@[i1 as int],
                    old(self).pool@[i2 as int],
                    keep,
                    es,
                    child,
                ));
                assert(possible_child(old(self).pool@, child));
            }
            let ghost pool0 = self.pool@;
            self.pool.push(child);
            proof {
                assert(self.pool@.take(parents_end as int) =~= pool0.take(parents_end as int));
            }
        }
    }

    /// Moves to the next generation.
    pub fn advance_round(&mut self)
        requires
            old(self).round < u64::MAX,
        ensures
            final(self).round == old(self).round + 1,
            final(self).pool == old(self).pool,
    {
        self.round = self.round + 1;
    }
}

/// The survivors are never more numerous than the pool.
pub proof fn lemma_select_from_len(s: Seq<Genome>, draws: Seq<int>, r: int)
    ensures
        select_from(s, draws, r).len() <= s.len() - r || s.len() - r < 0,
    decreases s.len() - r,
{
    if 0 <= r < s.len() {
        lemma_select_from_len(s, draws, r + 1);
    }
}

} // verus!
