//! A DNA: a fixed-size pool of genes of one size, with crossover, comparison and
//! flattening.
use vstd::prelude::*;
use crate::codec::{
    chunk, hex_number, hex_text, is_hex_text, lemma_chunk_inside, lemma_hex_text_by_chunks,
    lemma_hex_text_read, lemma_uniform_blocks, partition_str, pow16, push_hex, string_of_chars,
    u16_from_str, DecodeError,
};
use crate::gene::{
    gene_from_text, gene_text, is_mutation, lemma_gene_round_trip, lemma_gene_text_blocks,
    markers_from_text, values_of, BuildError, Gene,
};
use crate::marker::Marker;
use crate::random::gen_range;

verus! {

/// A uniform draw in `[0, 1)` is taken as one of this many equal steps.
pub const DRAW_STEPS: usize = 16777216;

/// A crossover draw at or above this step (one half) takes the left parent's gene.
pub const CROSSOVER_CUTOFF: u32 = 8388608;

/// A mutation draw at or above this step (0.9, on the grid of steps) mutates the gene.
pub const MUTATION_CUTOFF: u32 = 15099494;

/// A genome: `pool_size` genes, each with `gene_size` trait markers.
pub struct DNA {
    pub pool_size: u16,
    pub gene_size: u16,
    pub genes: Vec<Gene>,
}

/// The texts of a run of genes, one after another.
pub open spec fn genes_text(gs: Seq<Gene>) -> Seq<char> {
    gs.map_values(|g: Gene| gene_text(g.markers@)).flatten_alt()
}

/// The text of a DNA: pool size and gene size in four digits each, then the genes.
pub open spec fn dna_text(pool_size: u16, gene_size: u16, genes: Seq<Gene>) -> Seq<char> {
    hex_text(pool_size as nat, 4) + hex_text(gene_size as nat, 4) + genes_text(genes)
}

/// Every marker's bit pattern, gene by gene, the influence markers included.
pub open spec fn latent(gs: Seq<Gene>) -> Seq<u32> {
    gs.map_values(|g: Gene| values_of(g.markers@)).flatten_alt()
}

/// The markers of each gene of a run.
pub open spec fn markers_of(gs: Seq<Gene>) -> Seq<Seq<Marker>> {
    gs.map_values(|g: Gene| g.markers@)
}

/// The text length of a gene with `size` trait markers.
pub open spec fn gene_width(size: nat) -> nat {
    8 * (size + 1)
}

/// What reading a DNA back from `s` gives: pool size, gene size and each gene's markers.
pub open spec fn dna_from_text(s: Seq<char>) -> Result<(u16, u16, Seq<Seq<Marker>>), DecodeError> {
    if s.len() < 8 {
        Err(DecodeError::TruncatedHeader)
    } else if !is_hex_text(s.subrange(0, 4)) || !is_hex_text(s.subrange(4, 8)) {
        Err(DecodeError::BadHexDigit)
    } else {
        let pool = hex_number(s.subrange(0, 4));
        let size = hex_number(s.subrange(4, 8));
        let body = s.subrange(8, s.len() as int);
        let k = gene_width(size);
        if size == 0 {
            Err(DecodeError::NoMarkers)
        } else if body.len() != pool * k {
            Err(DecodeError::UnexpectedLength)
        } else if !is_hex_text(body) {
            Err(DecodeError::BadHexDigit)
        } else {
            Ok(
                (
                    pool as u16,
                    size as u16,
                    Seq::new(pool, |i: int| markers_from_text(chunk(body, k, i))),
                ),
            )
        }
    }
}

/// How many of the first `n` positions hold genes with the same text.
pub open spec fn same_count(a: Seq<Gene>, b: Seq<Gene>, n: int) -> nat
    decreases n,
{
    if n <= 0 {
        0
    } else {
        same_count(a, b, n - 1) + if gene_text(a[n - 1].markers@) == gene_text(
            b[n - 1].markers@,
        ) {
            1nat
        } else {
            0nat
        }
    }
}

/// The number of positions at which two DNA hold genes with the same text; none when
/// their pool sizes differ.
pub open spec fn similarity(left: DNA, right: DNA) -> nat {
    if left.pool_size != right.pool_size {
        0
    } else {
        same_count(left.genes@, right.genes@, left.pool_size as int)
    }
}

/// A child gene came from the left or the right parent's gene, and with `mutate` it may
/// then have undergone one mutation (with the sample `fresh`).
pub open spec fn inherited(
    child: Seq<Marker>,
    left: Seq<Marker>,
    right: Seq<Marker>,
    mutate: bool,
    fresh: u32,
) -> bool {
    ||| child == left
    ||| child == right
    ||| mutate && (is_mutation(left, child, fresh, false) || is_mutation(right, child, fresh, false))
}

/// The gene that the crossover draw `draw` picks: the left one at or above the cutoff.
pub open spec fn picked(left: Seq<Marker>, right: Seq<Marker>, draw: u32) -> Seq<Marker> {
    if draw >= CROSSOVER_CUTOFF {
        left
    } else {
        right
    }
}

/// A child gene made from the given draws: the picked parent gene, mutated once (with
/// the sample `fresh`) exactly when `mutate` is on and `chance` is at or above the
/// mutation cutoff.
pub open spec fn bred(
    child: Seq<Marker>,
    left: Seq<Marker>,
    right: Seq<Marker>,
    mutate: bool,
    crossover: u32,
    chance: u32,
    fresh: u32,
) -> bool {
    if mutate && chance >= MUTATION_CUTOFF {
        is_mutation(picked(left, right, crossover), child, fresh, false)
    } else {
        child == picked(left, right, crossover)
    }
}

proof fn lemma_flatten_push<A>(s: Seq<Seq<A>>, x: Seq<A>)
    ensures
        s.push(x).flatten_alt() == s.flatten_alt() + x,
{
    assert(s.push(x).drop_last() =~= s);
}

proof fn lemma_same_count_bound(a: Seq<Gene>, b: Seq<Gene>, n: int)
    requires
        n >= 0,
    ensures
        same_count(a, b, n) <= n,
    decreases n,
{
    if n > 0 {
        lemma_same_count_bound(a, b, n - 1);
    }
}

/// The body of a well-formed DNA's text is its genes' texts, each `8 * (gene_size + 1)`
/// characters long.
proof fn lemma_genes_text_blocks(d: DNA)
    requires
        d.wf(),
    ensures
        genes_text(d.genes@).len() == d.pool_size * gene_width(d.gene_size as nat),
        forall|i: int|
            0 <= i < d.pool_size ==> #[trigger] chunk(
                genes_text(d.genes@),
                gene_width(d.gene_size as nat),
                i,
            ) == gene_text(d.genes@[i].markers@),
{
    let k = gene_width(d.gene_size as nat);
    let b = d.genes@.map_values(|g: Gene| gene_text(g.markers@));
    assert forall|i: int| 0 <= i < b.len() implies (#[trigger] b[i]).len() == k by {
        lemma_gene_text_blocks(d.genes@[i].markers@);
    }
    lemma_uniform_blocks(b, k as int);
    let t = genes_text(d.genes@);
    assert forall|i: int| 0 <= i < d.pool_size implies #[trigger] chunk(t, k as nat, i)
        == gene_text(d.genes@[i].markers@) by {
        assert((d.pool_size as int) * (k as int) % (k as int) == 0) by (nonlinear_arith)
            requires
                k > 0,
        ;
        assert((d.pool_size as int) * (k as int) / (k as int) == d.pool_size) by (nonlinear_arith)
            requires
                k > 0,
        ;
        lemma_chunk_inside(t.len(), k as nat, i);
        assert(b[i] == gene_text(d.genes@[i].markers@));
    }
}

/// Reading a DNA's text back gives its pool size, gene size and every gene's markers.
pub proof fn lemma_dna_round_trip(d: DNA)
    requires
        d.wf(),
    ensures
        dna_from_text(dna_text(d.pool_size, d.gene_size, d.genes@)) == Ok::<
            (u16, u16, Seq<Seq<Marker>>),
            DecodeError,
        >(d.model()),
{
    let s = dna_text(d.pool_size, d.gene_size, d.genes@);
    let body = genes_text(d.genes@);
    let k = gene_width(d.gene_size as nat);
    lemma_hex_text_read(d.pool_size as nat, 4);
    lemma_hex_text_read(d.gene_size as nat, 4);
    reveal_with_fuel(pow16, 5);
    assert(pow16(4) == 65536);
    assert(s.subrange(0, 4) =~= hex_text(d.pool_size as nat, 4));
    assert(s.subrange(4, 8) =~= hex_text(d.gene_size as nat, 4));
    assert(s.subrange(8, s.len() as int) =~= body);
    lemma_genes_text_blocks(d);
    assert((d.pool_size as int) * (k as int) % (k as int) == 0) by (nonlinear_arith)
        requires
            k > 0,
    ;
    assert((d.pool_size as int) * (k as int) / (k as int) == d.pool_size) by (nonlinear_arith)
        requires
            k > 0,
    ;
    assert forall|i: int| 0 <= i < body.len() / (k as nat) implies is_hex_text(
        #[trigger] chunk(body, k as nat, i),
    ) && markers_from_text(chunk(body, k as nat, i)) == d.genes@[i].markers@ by {
        lemma_gene_round_trip(d.genes@[i]);
    }
    lemma_hex_text_by_chunks(body, k as nat);
    assert(Seq::new(d.pool_size as nat, |i: int| markers_from_text(chunk(body, k as nat, i)))
        =~= markers_of(d.genes@));
}

/// A DNA compared with itself matches at every position.
pub proof fn lemma_compare_self(x: DNA)
    requires
        x.wf(),
    ensures
        similarity(x, x) == x.pool_size,
{
    lemma_same_count_self(x.genes@, x.pool_size as int);
}

proof fn lemma_same_count_self(a: Seq<Gene>, n: int)
    requires
        n >= 0,
    ensures
        same_count(a, a, n) == n,
    decreases n,
{
    if n > 0 {
        lemma_same_count_self(a, n - 1);
    }
}

proof fn lemma_same_count_split(c: Seq<Gene>, a: Seq<Gene>, b: Seq<Gene>, n: int)
    requires
        0 <= n <= c.len(),
        n <= a.len(),
        n <= b.len(),
        forall|i: int|
            0 <= i < n ==> (#[trigger] c[i]).markers@ == a[i].markers@ || c[i].markers@
                == b[i].markers@,
        forall|i: int|
            0 <= i < n ==> gene_text(#[trigger] a[i].markers@) != gene_text(b[i].markers@),
    ensures
        same_count(c, a, n) + same_count(c, b, n) == n,
    decreases n,
{
    if n > 0 {
        lemma_same_count_split(c, a, b, n - 1);
        let i = n - 1;
        assert(c[i].markers@ == a[i].markers@ || c[i].markers@ == b[i].markers@);
        assert(gene_text(a[i].markers@) != gene_text(b[i].markers@));
    }
}

/// A child whose every gene is the left or the right parent's gene at that position,
/// where the parents' genes differ at every position, matches the two parents at
/// `pool_size` positions in all.
pub proof fn lemma_crossover_shares(child: DNA, left: DNA, right: DNA)
    requires
        child.wf(),
        left.wf(),
        right.wf(),
        child.pool_size == left.pool_size,
        child.pool_size == right.pool_size,
        forall|i: int|
            0 <= i < child.pool_size ==> (#[trigger] child.genes@[i]).markers@
                == left.genes@[i].markers@ || child.genes@[i].markers@ == right.genes@[i].markers@,
        forall|i: int|
            0 <= i < child.pool_size ==> gene_text(#[trigger] left.genes@[i].markers@) != gene_text(
                right.genes@[i].markers@,
            ),
    ensures
        similarity(child, left) + similarity(child, right) == child.pool_size,
{
    lemma_same_count_split(child.genes@, left.genes@, right.genes@, child.pool_size as int);
}

impl DNA {
    /// `pool_size` genes, each well formed with `gene_size` trait markers, at least one.
    pub open spec fn wf(&self) -> bool {
        &&& self.gene_size >= 1
        &&& self.genes@.len() == self.pool_size
        &&& forall|i: int|
            0 <= i < self.genes@.len() ==> (#[trigger] self.genes@[i]).wf()
                && self.genes@[i].num_markers == self.gene_size
    }

    /// Pool size, gene size and each gene's markers.
    pub open spec fn model(&self) -> (u16, u16, Seq<Seq<Marker>>) {
        (self.pool_size, self.gene_size, markers_of(self.genes@))
    }

    /// Whether the DNA is well formed: `pool_size` well-formed genes, each with
    /// `gene_size` trait markers, at least one.
    pub fn is_well_formed(&self) -> (r: bool)
        ensures
            r == self.wf(),
    {
        if self.gene_size < 1 || self.genes.len() != self.pool_size as usize {
            return false;
        }
        let n = self.genes.len();
        let mut i: usize = 0;
        while i < n
            invariant
                i <= n,
                n == self.genes@.len(),
                forall|j: int|
                    0 <= j < i ==> (#[trigger] self.genes@[j]).wf() && self.genes@[j].num_markers
                        == self.gene_size,
            decreases n - i,
        {
            if !self.genes[i].is_well_formed() || self.genes[i].num_markers != self.gene_size {
                return false;
            }
            i = i + 1;
        }
        true
    }

    /// A DNA of `pool_size` genes with `gene_size` trait markers each; the markers hold
    /// `samples` in order, gene by gene, each gene's influence marker first. The caller
    /// draws the samples from the standard normal distribution.
    pub fn new(pool_size: u16, gene_size: u16, samples: &[u32]) -> (r: Result<DNA, BuildError>)
        requires
            samples@.len() == pool_size * (gene_size + 1),
        ensures
            r is Err <==> gene_size == 0,
            r matches Ok(d) ==> d.wf() && d.pool_size == pool_size && d.gene_size == gene_size
                && latent(d.genes@) == samples@,
    {
        if gene_size < 1 {
            return Err(BuildError::NoMarkers);
        }
        let k: usize = gene_size as usize + 1;
        let total = samples.len();
        let mut genes: Vec<Gene> = Vec::new();
        let mut offset: usize = 0;
        let mut i: u16 = 0;
        assert(genes@.map_values(|g: Gene| values_of(g.markers@)) =~= Seq::<Seq<u32>>::empty());
        assert(samples@.take(0) =~= Seq::<u32>::empty());
        while i < pool_size
            invariant
                i <= pool_size,
                gene_size >= 1,
                k == gene_size + 1,
                samples@.len() == pool_size * k,
                total == samples@.len(),
                offset == i * k,
                genes@.len() == i,
                forall|j: int|
                    0 <= j < i ==> (#[trigger] genes@[j]).wf() && genes@[j].num_markers
                        == gene_size,
                latent(genes@) == samples@.take(offset as int),
            decreases pool_size - i,
        {
            assert(offset + k <= pool_size * k && (i + 1) * k == offset + k) by (nonlinear_arith)
                requires
                    offset == i * k,
                    i < pool_size,
            ;
            let g = Gene::from_samples(samples, offset, gene_size);
            let ghost before = genes@;
            genes.push(g);
            proof {
                let f = |g: Gene| values_of(g.markers@);
                assert(genes@.map_values(f) =~= before.map_values(f).push(f(g)));
                lemma_flatten_push(before.map_values(f), f(g));
                assert(samples@.take(offset + k) =~= samples@.take(offset as int)
                    + samples@.subrange(offset as int, offset + k));
            }
            offset = offset + k;
            i = i + 1;
        }
        assert(samples@.take(offset as int) =~= samples@);
        Ok(DNA { pool_size, gene_size, genes })
    }

    /// Picks, for each position, the left or the right parent's gene by a fair draw, and
    /// with `mutate` mutates each picked gene with chance about one in ten (with the
    /// sample `fresh[i]` at position `i`). No child when the parents' pool sizes or gene
    /// sizes differ. The draws are made here; `merge_drawn` says what each draw gives.
    pub fn merge(left_dna: DNA, right_dna: DNA, mutate: bool, fresh: &[u32]) -> (r: Option<DNA>)
        requires
            left_dna.wf(),
            right_dna.wf(),
            mutate ==> fresh@.len() >= left_dna.pool_size,
        ensures
            r is None <==> (left_dna.pool_size != right_dna.pool_size || left_dna.gene_size
                != right_dna.gene_size),
            r matches Some(c) ==> {
                &&& c.wf()
                &&& c.pool_size == left_dna.pool_size
                &&& c.gene_size == left_dna.gene_size
                &&& forall|i: int|
                    0 <= i < c.pool_size ==> inherited(
                        #[trigger] c.genes@[i].markers@,
                        left_dna.genes@[i].markers@,
                        right_dna.genes@[i].markers@,
                        mutate,
                        fresh@[i],
                    )
            },
    {
        let n: usize = left_dna.pool_size as usize;
        let mut crossover: Vec<u32> = Vec::new();
        let mut chance: Vec<u32> = Vec::new();
        let mut i: usize = 0;
        while i < n
            invariant
                i <= n,
                crossover@.len() == i,
                chance@.len() == if mutate {
                    i as int
                } else {
                    0
                },
            decreases n - i,
        {
            crossover.push(gen_range(0, DRAW_STEPS) as u32);
            if mutate {
                chance.push(gen_range(0, DRAW_STEPS) as u32);
            }
            i = i + 1;
        }
        let r = DNA::merge_drawn(
            left_dna,
            right_dna,
            mutate,
            crossover.as_slice(),
            chance.as_slice(),
            fresh,
        );
        proof {
            if r is Some {
                let c = r->Some_0;
                assert forall|j: int| 0 <= j < c.pool_size implies inherited(
                    #[trigger] c.genes@[j].markers@,
                    left_dna.genes@[j].markers@,
                    right_dna.genes@[j].markers@,
                    mutate,
                    fresh@[j],
                ) by {
                    assert(bred(
                        c.genes@[j].markers@,
                        left_dna.genes@[j].markers@,
                        right_dna.genes@[j].markers@,
                        mutate,
                        crossover@[j],
                        chance@[j],
                        fresh@[j],
                    ));
                }
            }
        }
        r
    }

    /// The merge for given draws: at position `i` the child takes the left parent's gene
    /// when `crossover[i]` is at or above the crossover cutoff, else the right one's; with
    /// `mutate`, when `chance[i]` is at or above the mutation cutoff, that gene is then
    /// mutated once with the sample `fresh[i]`. No child when the parents' pool sizes or
    /// gene sizes differ.
    pub fn merge_drawn(
        left_dna: DNA,
        right_dna: DNA,
        mutate: bool,
        crossover: &[u32],
        chance: &[u32],
        fresh: &[u32],
    ) -> (r: Option<DNA>)
        requires
            left_dna.wf(),
            right_dna.wf(),
            crossover@.len() >= left_dna.pool_size,
            mutate ==> chance@.len() >= left_dna.pool_size && fresh@.len() >= left_dna.pool_size,
        ensures
            r is None <==> (left_dna.pool_size != right_dna.pool_size || left_dna.gene_size
                != right_dna.gene_size),
            r matches Some(c) ==> {
                &&& c.wf()
                &&& c.pool_size == left_dna.pool_size
                &&& c.gene_size == left_dna.gene_size
                &&& forall|i: int|
                    0 <= i < c.pool_size ==> bred(
                        #[trigger] c.genes@[i].markers@,
                        left_dna.genes@[i].markers@,
                        right_dna.genes@[i].markers@,
                        mutate,
                        crossover@[i],
                        chance@[i],
                        fresh@[i],
                    )
            },
    {
        if left_dna.pool_size != right_dna.pool_size || left_dna.gene_size != right_dna.gene_size {
            return None;
        }
        let n: usize = left_dna.pool_size as usize;
        let mut genes: Vec<Gene> = Vec::new();
        let mut i: usize = 0;
        while i < n
            invariant
                i <= n,
                n == left_dna.pool_size,
                left_dna.wf(),
                right_dna.wf(),
                left_dna.pool_size == right_dna.pool_size,
                left_dna.gene_size == right_dna.gene_size,
                crossover@.len() >= n,
                mutate ==> chance@.len() >= n && fresh@.len() >= n,
                genes@.len() == i,
                forall|j: int|
                    0 <= j < i ==> (#[trigger] genes@[j]).wf() && genes@[j].num_markers
                        == left_dna.gene_size && bred(
                        genes@[j].markers@,
                        left_dna.genes@[j].markers@,
                        right_dna.genes@[j].markers@,
                        mutate,
                        crossover@[j],
                        chance@[j],
                        fresh@[j],
                    ),
            decreases n - i,
        {
            let mut g = inherit(&left_dna.genes[i], &right_dna.genes[i], crossover[i]);
            if mutate && chance[i] >= MUTATION_CUTOFF {
                g.mutate(fresh[i]);
            }
            genes.push(g);
            i = i + 1;
        }
        Some(DNA { pool_size: left_dna.pool_size, gene_size: left_dna.gene_size, genes })
    }

    /// How many positions hold genes with the same text in both DNA; none when their
    /// pool sizes differ. Dividing by the pool size gives the share of matching genes.
    pub fn compare(left_dna: DNA, right_dna: DNA) -> (r: u16)
        requires
            left_dna.wf(),
            right_dna.wf(),
        ensures
            r == similarity(left_dna, right_dna),
    {
        if left_dna.pool_size != right_dna.pool_size {
            return 0;
        }
        let n: usize = left_dna.pool_size as usize;
        let mut count: u16 = 0;
        let mut i: usize = 0;
        while i < n
            invariant
                i <= n,
                n == left_dna.pool_size,
                n == right_dna.pool_size,
                left_dna.genes@.len() == n,
                right_dna.genes@.len() == n,
                count == same_count(left_dna.genes@, right_dna.genes@, i as int),
            decreases n - i,
        {
            proof {
                lemma_same_count_bound(left_dna.genes@, right_dna.genes@, i as int);
            }
            if left_dna.genes[i].to_string() == right_dna.genes[i].to_string() {
                count = count + 1;
            }
            i = i + 1;
        }
        count
    }

    /// Every marker's bit pattern, gene by gene, each gene's influence marker first.
    pub fn to_latent_vec(&self) -> (r: Vec<u32>)
        ensures
            r@ == latent(self.genes@),
    {
        let n = self.genes.len();
        let mut r: Vec<u32> = Vec::new();
        let mut i: usize = 0;
        assert(self.genes@.take(0).map_values(|g: Gene| values_of(g.markers@)) =~= Seq::<
            Seq<u32>,
        >::empty());
        while i < n
            invariant
                i <= n,
                n == self.genes@.len(),
                r@ == latent(self.genes@.take(i as int)),
            decreases n - i,
        {
            let gene = &self.genes[i];
            let m = gene.markers.len();
            let ghost start = r@;
            let mut j: usize = 0;
            while j < m
                invariant
                    j <= m,
                    m == gene.markers@.len(),
                    r@ == start + values_of(gene.markers@).take(j as int),
                decreases m - j,
            {
                r.push(gene.markers[j].bits);
                j = j + 1;
                assert(r@ =~= start + values_of(gene.markers@).take(j as int));
            }
            proof {
                let f = |g: Gene| values_of(g.markers@);
                assert(self.genes@.take(i + 1).map_values(f) =~= self.genes@.take(
                    i as int,
                ).map_values(f).push(f(*gene)));
                lemma_flatten_push(self.genes@.take(i as int).map_values(f), f(*gene));
                assert(values_of(gene.markers@).take(m as int) =~= values_of(gene.markers@));
            }
            i = i + 1;
        }
        assert(self.genes@.take(n as int) =~= self.genes@);
        r
    }

    /// The DNA's text: pool size and gene size in four digits each, then every gene's text.
    pub fn to_string(&self) -> (r: String)
        ensures
            r@ == dna_text(self.pool_size, self.gene_size, self.genes@),
            self.wf() ==> r@.len() == 8 + self.pool_size * gene_width(self.gene_size as nat),
    {
        let mut out: Vec<char> = Vec::new();
        push_hex(&mut out, self.pool_size as u32, 4);
        push_hex(&mut out, self.gene_size as u32, 4);
        let ghost head = out@;
        let n = self.genes.len();
        let mut i: usize = 0;
        assert(self.genes@.take(0).map_values(|g: Gene| gene_text(g.markers@)) =~= Seq::<
            Seq<char>,
        >::empty());
        while i < n
            invariant
                i <= n,
                n == self.genes@.len(),
                out@ == head + genes_text(self.genes@.take(i as int)),
            decreases n - i,
        {
            let gene = &self.genes[i];
            gene.push_text(&mut out);
            proof {
                let f = |g: Gene| gene_text(g.markers@);
                assert(self.genes@.take(i + 1).map_values(f) =~= self.genes@.take(
                    i as int,
                ).map_values(f).push(f(*gene)));
                lemma_flatten_push(self.genes@.take(i as int).map_values(f), f(*gene));
            }
            i = i + 1;
            assert(out@ =~= head + genes_text(self.genes@.take(i as int)));
        }
        assert(self.genes@.take(n as int) =~= self.genes@);
        proof {
            lemma_hex_text_read(self.pool_size as nat, 4);
            lemma_hex_text_read(self.gene_size as nat, 4);
            if self.wf() {
                lemma_genes_text_blocks(*self);
            }
        }
        assert(out@ =~= dna_text(self.pool_size, self.gene_size, self.genes@));
        string_of_chars(&out)
    }

    /// Reads a DNA back from its text. Text whose body does not hold exactly
    /// `pool_size` genes of the declared size is refused.
    pub fn decode(text: &str) -> (r: Result<DNA, DecodeError>)
        ensures
            match r {
                Ok(d) => d.wf() && dna_from_text(text@) == Ok::<
                    (u16, u16, Seq<Seq<Marker>>),
                    DecodeError,
                >(d.model()),
                Err(e) => dna_from_text(text@) == Err::<(u16, u16, Seq<Seq<Marker>>), DecodeError>(
                    e,
                ),
            },
    {
        let len = text.unicode_len();
        if len < 8 {
            return Err(DecodeError::TruncatedHeader);
        }
        let pool_size = match u16_from_str(text.substring_char(0, 4)) {
            Ok(v) => v,
            Err(e) => {
                return Err(e);
            },
        };
        let gene_size = match u16_from_str(text.substring_char(4, 8)) {
            Ok(v) => v,
            Err(e) => {
                return Err(e);
            },
        };
        let ghost s = text@;
        let ghost body_spec = s.subrange(8, s.len() as int);
        if gene_size == 0 {
            return Err(DecodeError::NoMarkers);
        }
        let k: usize = 8 * (gene_size as usize + 1);
        let body_len: usize = len - 8;
        assert(pool_size as u64 * k as u64 <= 65535 * 524288) by (nonlinear_arith)
            requires
                pool_size <= 65535,
                k <= 524288,
        ;
        if body_len as u64 != pool_size as u64 * k as u64 {
            return Err(DecodeError::UnexpectedLength);
        }
        let body = text.substring_char(8, len);
        let parts = partition_str(body, k);
        proof {
            assert((pool_size as int) * k % (k as int) == 0) by (nonlinear_arith)
                requires
                    k > 0,
            ;
            assert((pool_size as int) * k / (k as int) == pool_size) by (nonlinear_arith)
                requires
                    k > 0,
            ;
        }
        let n: usize = parts.len();
        let ghost want = Seq::new(pool_size as nat, |i: int| markers_from_text(chunk(body@, k as nat, i)));
        let mut genes: Vec<Gene> = Vec::new();
        let mut i: usize = 0;
        while i < n
            invariant
                i <= n,
                n == pool_size,
                k == 8 * (gene_size + 1),
                gene_size >= 1,
                body@ == body_spec,
                body_spec == text@.subrange(8, text@.len() as int),
                text@.len() >= 8,
                is_hex_text(text@.subrange(0, 4)),
                is_hex_text(text@.subrange(4, 8)),
                pool_size as nat == hex_number(text@.subrange(0, 4)),
                gene_size as nat == hex_number(text@.subrange(4, 8)),
                body@.len() == pool_size * k,
                (body@.len() as int) % (k as int) == 0,
                body@.len() / (k as nat) == pool_size,
                parts@.len() == n,
                forall|j: int| 0 <= j < n ==> (#[trigger] parts@[j])@ == chunk(body@, k as nat, j),
                genes@.len() == i,
                forall|j: int|
                    0 <= j < i ==> (#[trigger] genes@[j]).wf() && genes@[j].num_markers == gene_size
                        && genes@[j].markers@ == want[j],
                forall|j: int| 0 <= j < i ==> is_hex_text(#[trigger] chunk(body@, k as nat, j)),
                want == Seq::new(pool_size as nat, |i: int| markers_from_text(chunk(body@, k as nat, i))),
            decreases n - i,
        {
            proof {
                lemma_chunk_inside(body@.len(), k as nat, i as int);
            }
            let ghost c = chunk(body@, k as nat, i as int);
            assert(c.len() == k);
            match Gene::decode(parts[i]) {
                Ok(g) => {
                    proof {
                        assert(gene_from_text(c) == Ok::<Seq<Marker>, DecodeError>(g.markers@));
                        assert(g.markers@.len() == c.len() / 8);
                    }
                    genes.push(g);
                    i = i + 1;
                },
                Err(e) => {
                    proof {
                        assert(!is_hex_text(c));
                        lemma_hex_text_by_chunks(body@, k as nat);
                    }
                    return Err(e);
                },
            }
        }
        proof {
            lemma_hex_text_by_chunks(body@, k as nat);
        }
        let d = DNA { pool_size, gene_size, genes };
        assert(markers_of(d.genes@) =~= want);
        Ok(d)
    }
}

/// A copy of the left gene when `draw` is at or above the crossover cutoff, else of the
/// right one; the copy is made by writing the gene's text and reading it back.
pub fn inherit(left: &Gene, right: &Gene, draw: u32) -> (r: Gene)
    requires
        left.wf(),
        right.wf(),
    ensures
        r.wf(),
        draw >= CROSSOVER_CUTOFF ==> r.markers@ == left.markers@ && r.num_markers
            == left.num_markers,
        draw < CROSSOVER_CUTOFF ==> r.markers@ == right.markers@ && r.num_markers
            == right.num_markers,
{
    let picked = if draw >= CROSSOVER_CUTOFF {
        left
    } else {
        right
    };
    let text = picked.to_string();
    proof {
        lemma_gene_round_trip(*picked);
    }
    Gene::decode(text.as_str()).unwrap()
}

} // verus!
