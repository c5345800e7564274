//! The gene model and the sorted-merge difference that aligns two genomes
//! for crossover.
//!
//! Every gene carries an order key drawn uniformly at random when the gene
//! is created; the key imposes a total order across independently built
//! gene lists, so two genomes can be aligned by a stable merge.

use crate::rng::rng_coin;
use crate::svm::{ty_rank, SvmInstruction};
use vstd::prelude::*;

verus! {

/// One evolvable instruction tagged with its random ordering key.
#[derive(Debug, Clone, Copy, PartialEq, Eq, Structural, Hash)]
pub struct Gene {
    /// The ordering key; compared before the instruction.
    pub order: u64,
    /// The instruction the gene contributes to a program.
    pub ins: SvmInstruction,
}

/// Strict lexicographic order on (opcode rank, dest, src).
pub open spec fn ins_lt(a: SvmInstruction, b: SvmInstruction) -> bool {
    ||| ty_rank(a.ty) < ty_rank(b.ty)
    ||| (a.ty == b.ty && a.dest < b.dest)
    ||| (a.ty == b.ty && a.dest == b.dest && a.src < b.src)
}

/// Strict lexicographic order on (order key, instruction).
pub open spec fn gene_lt(a: Gene, b: Gene) -> bool {
    a.order < b.order || (a.order == b.order && ins_lt(a.ins, b.ins))
}

/// Non-strict gene order.
pub open spec fn gene_le(a: Gene, b: Gene) -> bool {
    gene_lt(a, b) || a == b
}

/// Opcodes with equal ranks are the same opcode.
pub proof fn lemma_ty_rank_injective(x: crate::svm::SvmInstructionTy, y: crate::svm::SvmInstructionTy)
    ensures
        ty_rank(x) == ty_rank(y) ==> x == y,
{
}

/// Exactly one of `a < b`, `b < a`, `a == b` holds: the gene order is total.
pub proof fn lemma_gene_trichotomy(a: Gene, b: Gene)
    ensures
        gene_lt(a, b) || gene_lt(b, a) || a == b,
        gene_lt(a, b) ==> !gene_lt(b, a) && a != b,
        gene_lt(b, a) ==> !gene_lt(a, b) && a != b,
{
    lemma_ty_rank_injective(a.ins.ty, b.ins.ty);
}

/// The gene order is transitive.
pub proof fn lemma_gene_le_trans(a: Gene, b: Gene, c: Gene)
    requires
        gene_le(a, b),
        gene_le(b, c),
    ensures
        gene_le(a, c),
{
    lemma_ty_rank_injective(a.ins.ty, b.ins.ty);
    lemma_ty_rank_injective(b.ins.ty, c.ins.ty);
    lemma_ty_rank_injective(a.ins.ty, c.ins.ty);
}

/// Comparison of two genes by the total gene order.
pub fn gene_lt_exec(x: &Gene, y: &Gene) -> (r: bool)
    ensures
        r == gene_lt(*x, *y),
{
    if x.order != y.order {
        return x.order < y.order;
    }
    let rx = x.ins.ty.rank();
    let ry = y.ins.ty.rank();
    proof {
        lemma_ty_rank_injective(x.ins.ty, y.ins.ty);
    }
    if rx != ry {
        return rx < ry;
    }
    if x.ins.dest != y.ins.dest {
        return x.ins.dest < y.ins.dest;
    }
    x.ins.src < y.ins.src
}

/// The sequence is sorted by the gene order.
pub open spec fn sorted_genes(s: Seq<Gene>) -> bool {
    forall|i: int, j: int| 0 <= i < j < s.len() ==> gene_le(#[trigger] s[i], #[trigger] s[j])
}

/// Which stream a block's gene came from.
#[derive(Debug, Clone, Copy, PartialEq, Eq, Structural, Hash)]
pub enum DiffTy {
    /// Present only in the first input.
    A,
    /// Present only in the second input.
    B,
    /// Present in both inputs.
    Both,
}

/// One maximal run of genes that share a tag in the aligned merge.
#[derive(Debug, Clone, PartialEq, Eq)]
pub struct DiffBlock {
    pub ty: DiffTy,
    pub block: Vec<Gene>,
}

/// The mathematical content of one block.
pub open spec fn block_model(b: DiffBlock) -> (DiffTy, Seq<Gene>) {
    (b.ty, b.block@)
}

/// The mathematical content of a block sequence.
pub open spec fn blocks_model(s: Seq<DiffBlock>) -> Seq<(DiffTy, Seq<Gene>)> {
    s.map_values(|b: DiffBlock| block_model(b))
}

/// Which stream the next merged gene is drawn from: equal heads are
/// consumed from both streams at once; otherwise the smaller head goes
/// first, an exhausted stream counting as infinite. Returns the tag, the
/// gene, and the two remaining streams.
pub open spec fn head_choice(a: Seq<Gene>, b: Seq<Gene>) -> (DiffTy, Gene, Seq<Gene>, Seq<Gene>)
    recommends
        a.len() + b.len() > 0,
{
    if a.len() > 0 && b.len() > 0 && a[0] == b[0] {
        (DiffTy::Both, a[0], a.drop_first(), b.drop_first())
    } else if b.len() == 0 || (a.len() > 0 && gene_lt(a[0], b[0])) {
        (DiffTy::A, a[0], a.drop_first(), b)
    } else {
        (DiffTy::B, b[0], a, b.drop_first())
    }
}

/// The tagged blocks that align two gene sequences: a stable merge of the
/// two streams, cut into maximal runs of one tag. An empty final run is
/// suppressed, so every block is nonempty.
pub open spec fn diff_spec(a: Seq<Gene>, b: Seq<Gene>) -> Seq<(DiffTy, Seq<Gene>)>
    decreases a.len() + b.len(),
{
    if a.len() + b.len() == 0 {
        Seq::empty()
    } else {
        let hc = head_choice(a, b);
        let rest = diff_spec(hc.2, hc.3);
        if rest.len() > 0 && rest[0].0 == hc.0 {
            rest.update(0, (hc.0, seq![hc.1] + rest[0].1))
        } else {
            seq![(hc.0, seq![hc.1])] + rest
        }
    }
}

/// The stable merge of two gene streams that replaying the diff blocks in
/// order reproduces; equal heads are emitted once.
pub open spec fn merge_genes(a: Seq<Gene>, b: Seq<Gene>) -> Seq<Gene>
    decreases a.len() + b.len(),
{
    if a.len() + b.len() == 0 {
        Seq::empty()
    } else {
        let hc = head_choice(a, b);
        seq![hc.1] + merge_genes(hc.2, hc.3)
    }
}

/// All genes of a block sequence, in block order.
pub open spec fn flatten_blocks(s: Seq<(DiffTy, Seq<Gene>)>) -> Seq<Gene>
    decreases s.len(),
{
    if s.len() == 0 {
        Seq::empty()
    } else {
        s[0].1 + flatten_blocks(s.drop_first())
    }
}

/// The difference of a sequence against itself is a single `Both` block
/// holding the whole sequence (no blocks at all when it is empty).
pub proof fn lemma_diff_self(a: Seq<Gene>)
    ensures
        a.len() == 0 ==> diff_spec(a, a) == Seq::<(DiffTy, Seq<Gene>)>::empty(),
        a.len() > 0 ==> diff_spec(a, a) == seq![(DiffTy::Both, a)],
    decreases a.len(),
{
    if a.len() > 0 {
        let hc = head_choice(a, a);
        assert(hc == (DiffTy::Both, a[0], a.drop_first(), a.drop_first()));
        lemma_diff_self(a.drop_first());
        if a.len() == 1 {
            assert(a.drop_first().len() == 0);
            assert(diff_spec(a, a) =~= seq![(DiffTy::Both, seq![a[0]])]);
            assert(seq![a[0]] =~= a);
        } else {
            let rest = diff_spec(a.drop_first(), a.drop_first());
            assert(rest == seq![(DiffTy::Both, a.drop_first())]);
            assert(diff_spec(a, a) =~= seq![(DiffTy::Both, seq![a[0]] + a.drop_first())]);
            assert(seq![a[0]] + a.drop_first() =~= a);
        }
    }
}

/// The difference of a nonempty sequence against the empty one is a single
/// `A` block holding the whole sequence.
pub proof fn lemma_diff_a_only(a: Seq<Gene>)
    ensures
        a.len() == 0 ==> diff_spec(a, Seq::<Gene>::empty()) == Seq::<(DiffTy, Seq<Gene>)>::empty(),
        a.len() > 0 ==> diff_spec(a, Seq::<Gene>::empty()) == seq![(DiffTy::A, a)],
    decreases a.len(),
{
    let e = Seq::<Gene>::empty();
    if a.len() > 0 {
        let hc = head_choice(a, e);
        assert(hc == (DiffTy::A, a[0], a.drop_first(), e));
        lemma_diff_a_only(a.drop_first());
        if a.len() == 1 {
            assert(diff_spec(a, e) =~= seq![(DiffTy::A, seq![a[0]])]);
            assert(seq![a[0]] =~= a);
        } else {
            assert(diff_spec(a, e) =~= seq![(DiffTy::A, seq![a[0]] + a.drop_first())]);
            assert(seq![a[0]] + a.drop_first() =~= a);
        }
    }
}

/// The difference of the empty sequence against a nonempty one is a single
/// `B` block holding the whole sequence.
pub proof fn lemma_diff_b_only(b: Seq<Gene>)
    ensures
        b.len() == 0 ==> diff_spec(Seq::<Gene>::empty(), b) == Seq::<(DiffTy, Seq<Gene>)>::empty(),
        b.len() > 0 ==> diff_spec(Seq::<Gene>::empty(), b) == seq![(DiffTy::B, b)],
    decreases b.len(),
{
    let e = Seq::<Gene>::empty();
    if b.len() > 0 {
        let hc = head_choice(e, b);
        assert(hc == (DiffTy::B, b[0], e, b.drop_first()));
        lemma_diff_b_only(b.drop_first());
        if b.len() == 1 {
            assert(diff_spec(e, b) =~= seq![(DiffTy::B, seq![b[0]])]);
            assert(seq![b[0]] =~= b);
        } else {
            assert(diff_spec(e, b) =~= seq![(DiffTy::B, seq![b[0]] + b.drop_first())]);
            assert(seq![b[0]] + b.drop_first() =~= b);
        }
    }
}

/// Replaying the diff blocks in order reproduces the stable merge of the
/// two inputs.
pub proof fn lemma_diff_flatten(a: Seq<Gene>, b: Seq<Gene>)
    ensures
        flatten_blocks(diff_spec(a, b)) == merge_genes(a, b),
    decreases a.len() + b.len(),
{
    if a.len() + b.len() > 0 {
        let hc = head_choice(a, b);
        lemma_diff_flatten(hc.2, hc.3);
        let rest = diff_spec(hc.2, hc.3);
        let mrest = merge_genes(hc.2, hc.3);
        if rest.len() > 0 && rest[0].0 == hc.0 {
            let upd = rest.update(0, (hc.0, seq![hc.1] + rest[0].1));
            assert(diff_spec(a, b) == upd);
            assert(upd.drop_first() =~= rest.drop_first());
            assert(flatten_blocks(upd) == upd[0].1 + flatten_blocks(rest.drop_first()));
            assert(flatten_blocks(rest) == rest[0].1 + flatten_blocks(rest.drop_first()));
            assert(flatten_blocks(upd) =~= seq![hc.1] + flatten_blocks(rest));
        } else {
            let cons = seq![(hc.0, seq![hc.1])] + rest;
            assert(diff_spec(a, b) == cons);
            assert(cons.drop_first() =~= rest);
            assert(flatten_blocks(cons) == cons[0].1 + flatten_blocks(rest));
            assert(flatten_blocks(cons) =~= seq![hc.1] + flatten_blocks(rest));
        }
        assert(merge_genes(a, b) == seq![hc.1] + mrest);
    } else {
        assert(flatten_blocks(diff_spec(a, b)) =~= merge_genes(a, b));
    }
}

/// A sorted sequence stays sorted when its head is dropped.
pub proof fn lemma_sorted_drop_first(s: Seq<Gene>)
    requires
        sorted_genes(s),
        s.len() > 0,
    ensures
        sorted_genes(s.drop_first()),
{
    assert forall|i: int, j: int| 0 <= i < j < s.drop_first().len() implies gene_le(
        #[trigger] s.drop_first()[i],
        #[trigger] s.drop_first()[j],
    ) by {
        assert(s.drop_first()[i] == s[i + 1]);
        assert(s.drop_first()[j] == s[j + 1]);
    }
}

/// The stable merge of two sorted inputs is sorted, and its head, when
/// there is one, is the head of one of the inputs.
pub proof fn lemma_merge_sorted(a: Seq<Gene>, b: Seq<Gene>)
    requires
        sorted_genes(a),
        sorted_genes(b),
    ensures
        sorted_genes(merge_genes(a, b)),
        merge_genes(a, b).len() == 0 <==> a.len() + b.len() == 0,
        merge_genes(a, b).len() > 0 ==> (a.len() > 0 && merge_genes(a, b)[0] == a[0]) || (b.len()
            > 0 && merge_genes(a, b)[0] == b[0]),
    decreases a.len() + b.len(),
{
    if a.len() + b.len() > 0 {
        let hc = head_choice(a, b);
        if a.len() > 0 && b.len() > 0 && a[0] == b[0] {
            lemma_sorted_drop_first(a);
            lemma_sorted_drop_first(b);
            assert(hc.2.len() > 0 ==> hc.2[0] == a[1] && gene_le(a[0], a[1]));
            assert(hc.3.len() > 0 ==> hc.3[0] == b[1] && gene_le(b[0], b[1]));
        } else if b.len() == 0 || (a.len() > 0 && gene_lt(a[0], b[0])) {
            lemma_sorted_drop_first(a);
            assert(hc.2.len() > 0 ==> hc.2[0] == a[1] && gene_le(a[0], a[1]));
        } else {
            lemma_sorted_drop_first(b);
            if a.len() > 0 {
                lemma_gene_trichotomy(a[0], b[0]);
            }
            assert(hc.2.len() > 0 ==> hc.2[0] == a[0] && gene_le(b[0], a[0]));
            assert(hc.3.len() > 0 ==> hc.3[0] == b[1] && gene_le(b[0], b[1]));
        }
        assert(hc.2.len() > 0 ==> gene_le(hc.1, hc.2[0]));
        assert(hc.3.len() > 0 ==> gene_le(hc.1, hc.3[0]));
        lemma_merge_sorted(hc.2, hc.3);
        let m = merge_genes(a, b);
        let m2 = merge_genes(hc.2, hc.3);
        assert(m == seq![hc.1] + m2);
        assert(m2.len() > 0 ==> gene_le(hc.1, m2[0]));
        assert forall|i: int, j: int| 0 <= i < j < m.len() implies gene_le(
            #[trigger] m[i],
            #[trigger] m[j],
        ) by {
            assert(m[j] == m2[j - 1]);
            if i == 0 {
                assert(gene_le(m2[0], m2[j - 1]));
                lemma_gene_le_trans(hc.1, m2[0], m2[j - 1]);
            } else {
                assert(m[i] == m2[i - 1]);
            }
        }
    }
}

/// The difference of two sorted gene sequences: their stable merge cut
/// into maximal same-tag blocks.
pub fn diff(a: &Vec<Gene>, b: &Vec<Gene>) -> (res: Vec<DiffBlock>)
    ensures
        blocks_model(res@) == diff_spec(a@, b@),
{
    let res = diff_from(a, b, 0, 0);
    proof {
        assert(a@.skip(0) == a@);
        assert(b@.skip(0) == b@);
    }
    res
}

/// The blocks aligning the suffixes of the two inputs that start at `i`
/// and `j`.
fn diff_from(a: &Vec<Gene>, b: &Vec<Gene>, i: usize, j: usize) -> (res: Vec<DiffBlock>)
    requires
        i <= a@.len(),
        j <= b@.len(),
    ensures
        blocks_model(res@) == diff_spec(a@.skip(i as int), b@.skip(j as int)),
    decreases a@.len() - i + b@.len() - j,
{
    let ghost sa = a@.skip(i as int);
    let ghost sb = b@.skip(j as int);
    if i == a.len() && j == b.len() {
        let res: Vec<DiffBlock> = Vec::new();
        proof {
            assert(blocks_model(res@) =~= diff_spec(sa, sb));
        }
        return res;
    }
    let t: DiffTy;
    let g: Gene;
    let i2: usize;
    let j2: usize;
    if i < a.len() && j < b.len() && a[i] == b[j] {
        t = DiffTy::Both;
        g = a[i];
        i2 = i + 1;
        j2 = j + 1;
    } else if j == b.len() || (i < a.len() && gene_lt_exec(&a[i], &b[j])) {
        t = DiffTy::A;
        g = a[i];
        i2 = i + 1;
        j2 = j;
    } else {
        t = DiffTy::B;
        g = b[j];
        i2 = i;
        j2 = j + 1;
    }
    proof {
        assert(sa.drop_first() =~= a@.skip(i2 as int) || sa =~= a@.skip(i2 as int));
        assert(sb.drop_first() =~= b@.skip(j2 as int) || sb =~= b@.skip(j2 as int));
        assert(head_choice(sa, sb) == (t, g, a@.skip(i2 as int), b@.skip(j2 as int)));
    }
    let mut rest = diff_from(a, b, i2, j2);
    let ghost rm = blocks_model(rest@);
    let ghost full = diff_spec(sa, sb);
    if rest.len() > 0 && rest[0].ty == t {
        proof {
            assert(rm[0].0 == t);
            assert(full == rm.update(0, (t, seq![g] + rm[0].1)));
        }
        let ghost rest0 = rest@;
        let mut first = rest.remove(0);
        first.block.insert(0, g);
        let ghost first1 = first;
        rest.insert(0, first);
        proof {
            assert forall|k: int| 0 <= k < rest@.len() implies blocks_model(rest@)[k] == full[k] by {
                if k == 0 {
                    assert(rest@[0] == first1);
                    assert(first1.block@ =~= seq![g] + rm[0].1);
                } else {
                    assert(rest@[k] == rest0[k]);
                    assert(full[k] == rm[k]);
                }
            }
            assert(blocks_model(rest@) =~= full);
        }
        rest
    } else {
        proof {
            assert(!(rm.len() > 0 && rm[0].0 == t));
            assert(full == seq![(t, seq![g])] + rm);
        }
        let mut out: Vec<DiffBlock> = Vec::new();
        let mut blk: Vec<Gene> = Vec::new();
        blk.push(g);
        out.push(DiffBlock { ty: t, block: blk });
        out.append(&mut rest);
        proof {
            assert forall|k: int| 0 <= k < out@.len() implies blocks_model(out@)[k] == full[k] by {
                if k == 0 {
                    assert(blocks_model(out@)[0].1 =~= seq![g]);
                }
            }
            assert(blocks_model(out@) =~= full);
        }
        out
    }
}

/// The merge is never longer than its two inputs together.
pub proof fn lemma_merge_len(a: Seq<Gene>, b: Seq<Gene>)
    ensures
        merge_genes(a, b).len() <= a.len() + b.len(),
    decreases a.len() + b.len(),
{
    if a.len() + b.len() > 0 {
        let hc = head_choice(a, b);
        lemma_merge_len(hc.2, hc.3);
    }
}

/// Keeping blocks never yields more genes than all the blocks hold.
pub proof fn lemma_chosen_len(blocks: Seq<(DiffTy, Seq<Gene>)>, keep: Seq<bool>)
    ensures
        chosen_blocks(blocks, keep).len() <= flatten_blocks(blocks).len(),
    decreases blocks.len(),
{
    if blocks.len() > 0 {
        lemma_chosen_len(blocks.drop_first(), keep.drop_first());
    }
}

/// The genes one crossover keeps, in encountered order: the genes of block
/// `k` exactly when `keep[k]` holds.
pub open spec fn chosen_blocks(blocks: Seq<(DiffTy, Seq<Gene>)>, keep: Seq<bool>) -> Seq<Gene>
    decreases blocks.len(),
{
    if blocks.len() == 0 {
        Seq::empty()
    } else if keep.len() > 0 && keep[0] {
        blocks[0].1 + chosen_blocks(blocks.drop_first(), keep.drop_first())
    } else {
        chosen_blocks(blocks.drop_first(), keep.drop_first())
    }
}

/// Keeping one more block at the end appends exactly that block's genes.
pub proof fn lemma_chosen_push(
    blocks: Seq<(DiffTy, Seq<Gene>)>,
    keep: Seq<bool>,
    blk: (DiffTy, Seq<Gene>),
    kb: bool,
)
    requires
        keep.len() == blocks.len(),
    ensures
        chosen_blocks(blocks.push(blk), keep.push(kb)) == chosen_blocks(blocks, keep) + (if kb {
            blk.1
        } else {
            Seq::<Gene>::empty()
        }),
    decreases blocks.len(),
{
    let bp = blocks.push(blk);
    let kp = keep.push(kb);
    if blocks.len() == 0 {
        assert(bp.drop_first() =~= Seq::<(DiffTy, Seq<Gene>)>::empty());
        assert(kp.drop_first() =~= Seq::<bool>::empty());
        assert(bp[0] == blk && kp[0] == kb);
        assert(chosen_blocks(Seq::<(DiffTy, Seq<Gene>)>::empty(), Seq::<bool>::empty())
            == Seq::<Gene>::empty());
        if kb {
            assert(chosen_blocks(bp, kp) =~= chosen_blocks(blocks, keep) + blk.1);
        } else {
            assert(chosen_blocks(bp, kp) =~= chosen_blocks(blocks, keep));
        }
    } else {
        assert(bp.drop_first() =~= blocks.drop_first().push(blk));
        assert(kp.drop_first() =~= keep.drop_first().push(kb));
        lemma_chosen_push(blocks.drop_first(), keep.drop_first(), blk, kb);
        assert(bp[0] == blocks[0] && kp[0] == keep[0]);
        if keep[0] {
            assert(chosen_blocks(bp, kp) =~= chosen_blocks(blocks, keep) + (if kb {
                blk.1
            } else {
                Seq::<Gene>::empty()
            }));
        } else {
            assert(chosen_blocks(bp, kp) =~= chosen_blocks(blocks, keep) + (if kb {
                blk.1
            } else {
                Seq::<Gene>::empty()
            }));
        }
    }
}

/// Every kept gene is one of the blocks' genes.
pub proof fn lemma_chosen_elements(blocks: Seq<(DiffTy, Seq<Gene>)>, keep: Seq<bool>)
    ensures
        forall|i: int|
            0 <= i < chosen_blocks(blocks, keep).len() ==> flatten_blocks(blocks).contains(
                #[trigger] chosen_blocks(blocks, keep)[i],
            ),
    decreases blocks.len(),
{
    if blocks.len() > 0 {
        let f = flatten_blocks(blocks);
        let f0 = blocks[0].1;
        let frest = flatten_blocks(blocks.drop_first());
        assert(f == f0 + frest);
        lemma_chosen_elements(blocks.drop_first(), keep.drop_first());
        let crest = chosen_blocks(blocks.drop_first(), keep.drop_first());
        let c = chosen_blocks(blocks, keep);
        assert forall|i: int| 0 <= i < c.len() implies f.contains(#[trigger] c[i]) by {
            let off: int = if keep.len() > 0 && keep[0] {
                f0.len() as int
            } else {
                0
            };
            if i < off {
                assert(f[i] == c[i]);
            } else {
                let g2 = crest[i - off];
                assert(frest.contains(g2));
                let k = choose|k: int| 0 <= k < frest.len() && frest[k] == g2;
                assert(f[f0.len() + k] == g2);
            }
        }
    }
}

/// Every merged gene comes from one of the two inputs.
pub proof fn lemma_merge_elements(a: Seq<Gene>, b: Seq<Gene>)
    ensures
        forall|i: int|
            0 <= i < merge_genes(a, b).len() ==> a.contains(#[trigger] merge_genes(a, b)[i])
                || b.contains(merge_genes(a, b)[i]),
    decreases a.len() + b.len(),
{
    if a.len() + b.len() > 0 {
        let hc = head_choice(a, b);
        lemma_merge_elements(hc.2, hc.3);
        let m = merge_genes(a, b);
        let m2 = merge_genes(hc.2, hc.3);
        assert(m == seq![hc.1] + m2);
        assert forall|i: int| 0 <= i < m.len() implies a.contains(#[trigger] m[i]) || b.contains(
            m[i],
        ) by {
            if i == 0 {
                if a.len() > 0 && m[0] == a[0] {
                    assert(a.contains(a[0]));
                } else {
                    assert(b.contains(b[0]));
                }
            } else {
                let g = m2[i - 1];
                if hc.2.contains(g) {
                    let k = choose|k: int| 0 <= k < hc.2.len() && hc.2[k] == g;
                    if hc.2 == a {
                        assert(a.contains(g));
                    } else {
                        assert(a[k + 1] == g);
                        assert(a.contains(g));
                    }
                } else {
                    let k = choose|k: int| 0 <= k < hc.3.len() && hc.3[k] == g;
                    if hc.3 == b {
                        assert(b.contains(g));
                    } else {
                        assert(b[k + 1] == g);
                        assert(b.contains(g));
                    }
                }
            }
        }
    }
}

/// If all the genes of the blocks, read in order, are sorted, then so is
/// every kept-block concatenation, whatever blocks are kept.
pub proof fn lemma_chosen_sorted(blocks: Seq<(DiffTy, Seq<Gene>)>, keep: Seq<bool>)
    requires
        sorted_genes(flatten_blocks(blocks)),
    ensures
        sorted_genes(chosen_blocks(blocks, keep)),
        forall|i: int|
            0 <= i < chosen_blocks(blocks, keep).len() ==> flatten_blocks(blocks).contains(
                #[trigger] chosen_blocks(blocks, keep)[i],
            ),
    decreases blocks.len(),
{
    if blocks.len() > 0 {
        let f = flatten_blocks(blocks);
        let f0 = blocks[0].1;
        let frest = flatten_blocks(blocks.drop_first());
        assert(f == f0 + frest);
        assert(sorted_genes(frest)) by {
            assert forall|i: int, j: int| 0 <= i < j < frest.len() implies gene_le(
                #[trigger] frest[i],
                #[trigger] frest[j],
            ) by {
                assert(frest[i] == f[f0.len() + i]);
                assert(frest[j] == f[f0.len() + j]);
            }
        }
        lemma_chosen_sorted(blocks.drop_first(), keep.drop_first());
        let crest = chosen_blocks(blocks.drop_first(), keep.drop_first());
        let c = chosen_blocks(blocks, keep);
        if keep.len() > 0 && keep[0] {
            assert(c == f0 + crest);
            assert forall|i: int, j: int| 0 <= i < j < c.len() implies gene_le(
                #[trigger] c[i],
                #[trigger] c[j],
            ) by {
                if j < f0.len() {
                    assert(c[i] == f[i] && c[j] == f[j]);
                } else if i >= f0.len() {
                    assert(c[i] == crest[i - f0.len()] && c[j] == crest[j - f0.len()]);
                } else {
                    assert(c[i] == f[i]);
                    let g2 = crest[j - f0.len()];
                    assert(frest.contains(g2));
                    let k = choose|k: int| 0 <= k < frest.len() && frest[k] == g2;
                    assert(f[f0.len() + k] == g2);
                    assert(gene_le(f[i], f[f0.len() + k]));
                }
            }
            assert forall|i: int| 0 <= i < c.len() implies f.contains(#[trigger] c[i]) by {
                if i < f0.len() {
                    assert(f[i] == c[i]);
                } else {
                    let g2 = crest[i - f0.len()];
                    assert(frest.contains(g2));
                    let k = choose|k: int| 0 <= k < frest.len() && frest[k] == g2;
                    assert(f[f0.len() + k] == g2);
                }
            }
        } else {
            assert(c == crest);
            assert forall|i: int| 0 <= i < c.len() implies f.contains(#[trigger] c[i]) by {
                assert(frest.contains(crest[i]));
                let k = choose|k: int| 0 <= k < frest.len() && frest[k] == crest[i];
                assert(f[f0.len() + k] == crest[i]);
            }
        }
    }
}

/// Recombines two parents' gene sequences: `Both` blocks of their diff are
/// always copied into the child; each single-parent block is kept in its
/// entirety with an independent even chance, preserving the local linkage
/// of genes unique to one parent. A child of sorted parents is sorted.
pub fn crossover(rng: &mut rand::rngs::StdRng, a: &Vec<Gene>, b: &Vec<Gene>) -> (child: Vec<Gene>)
    ensures
        exists|keep: Seq<bool>|
            {
                &&& keep.len() == diff_spec(a@, b@).len()
                &&& (forall|k: int|
                    0 <= k < keep.len() && diff_spec(a@, b@)[k].0 == DiffTy::Both ==> keep[k])
                &&& child@ == #[trigger] chosen_blocks(diff_spec(a@, b@), keep)
            },
        sorted_genes(a@) && sorted_genes(b@) ==> sorted_genes(child@),
        child@.len() <= a@.len() + b@.len(),
        forall|i: int|
            0 <= i < child@.len() ==> a@.contains(#[trigger] child@[i]) || b@.contains(child@[i]),
{
    let blocks = diff(a, b);
    let ghost bm = blocks_model(blocks@);
    let mut child: Vec<Gene> = Vec::new();
    let ghost mut keep = Seq::<bool>::empty();
    let mut k: usize = 0;
    proof {
        assert(chosen_blocks(bm.take(0), keep) =~= child@);
    }
    while k < blocks.len()
        invariant
            k <= blocks@.len(),
            bm == blocks_model(blocks@),
            keep.len() == k,
            forall|x: int| 0 <= x < k && bm[x].0 == DiffTy::Both ==> keep[x],
            child@ == chosen_blocks(bm.take(k as int), keep),
        decreases blocks@.len() - k,
    {
        let kept = if blocks[k].ty == DiffTy::Both {
            true
        } else {
            rng_coin(rng)
        };
        proof {
            lemma_chosen_push(bm.take(k as int), keep, bm[k as int], kept);
            assert(bm.take(k + 1) =~= bm.take(k as int).push(bm[k as int]));
        }
        if kept {
            let ghost child0 = child@;
            let mut l: usize = 0;
            while l < blocks[k].block.len()
                invariant
                    k < blocks@.len(),
                    l <= blocks@[k as int].block@.len(),
                    child@ == child0 + blocks@[k as int].block@.take(l as int),
                decreases blocks@[k as int].block@.len() - l,
            {
                let g = blocks[k].block[l];
                child.push(g);
                proof {
                    assert(child@ =~= child0 + blocks@[k as int].block@.take(l + 1));
                }
                l = l + 1;
            }
            proof {
                assert(blocks@[k as int].block@.take(blocks@[k as int].block@.len() as int)
                    =~= bm[k as int].1);
            }
        } else {
            proof {
                assert(child@ =~= child@ + Seq::<Gene>::empty());
            }
        }
        proof {
            keep = keep.push(kept);
        }
        k = k + 1;
    }
    proof {
        assert(bm.take(bm.len() as int) =~= bm);
        assert(child@ == chosen_blocks(diff_spec(a@, b@), keep));
        lemma_diff_flatten(a@, b@);
        lemma_merge_len(a@, b@);
        lemma_chosen_len(bm, keep);
        lemma_chosen_elements(bm, keep);
        lemma_merge_elements(a@, b@);
        assert forall|i: int| 0 <= i < child@.len() implies a@.contains(#[trigger] child@[i])
            || b@.contains(child@[i]) by {
            let g = child@[i];
            assert(flatten_blocks(bm).contains(g));
            let k = choose|k: int| 0 <= k < flatten_blocks(bm).len() && flatten_blocks(bm)[k] == g;
            assert(merge_genes(a@, b@)[k] == g);
        }
        if sorted_genes(a@) && sorted_genes(b@) {
            lemma_merge_sorted(a@, b@);
            lemma_chosen_sorted(bm, keep);
        }
    }
    child
}

} // verus!
