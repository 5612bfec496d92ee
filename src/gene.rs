//! A gene: one influence marker followed by its trait markers.
use vstd::prelude::*;
use crate::codec::{
    chunk, hex_number, is_hex_text, lemma_hex_text_by_chunks, partition_str, push_hex,
    string_of_chars, DecodeError,
};
use crate::marker::{lemma_marker_round_trip, marker_text, Marker};
use crate::mutation::{get_mutation_type, MutationType};
use crate::random::{gen_range, shuffle};

verus! {

/// Why a gene or a pool of genes could not be built.
#[derive(Debug, Clone, Copy, PartialEq, Eq, Structural)]
pub enum BuildError {
    /// A gene was asked for with no trait marker.
    NoMarkers,
}

/// An ordered run of markers. Index 0 holds the influence marker, indices
/// `1..=num_markers` the trait markers.
pub struct Gene {
    pub num_markers: u16,
    pub markers: Vec<Marker>,
}

/// The bit patterns of a run of markers.
pub open spec fn values_of(ms: Seq<Marker>) -> Seq<u32> {
    ms.map_values(|m: Marker| m.bits)
}

/// The text of a run of markers: their eight-character texts one after another.
pub open spec fn gene_text(ms: Seq<Marker>) -> Seq<char> {
    ms.map_values(|m: Marker| marker_text(m.bits)).flatten_alt()
}

/// The markers that the eight-character chunks of `s` spell.
pub open spec fn markers_from_text(s: Seq<char>) -> Seq<Marker> {
    Seq::new(s.len() / 8, |i: int| Marker { bits: hex_number(chunk(s, 8, i)) as u32 })
}

/// What reading a gene back from `s` gives.
pub open spec fn gene_from_text(s: Seq<char>) -> Result<Seq<Marker>, DecodeError> {
    if s.len() % 8 != 0 || s.len() > 8 * 65536 {
        Err(DecodeError::UnexpectedLength)
    } else if s.len() < 16 {
        Err(DecodeError::NoMarkers)
    } else if !is_hex_text(s) {
        Err(DecodeError::BadHexDigit)
    } else {
        Ok(markers_from_text(s))
    }
}

/// The markers after a mutation of the given kind at `target`, with `second` as the
/// trait marker that a duplication or a reversal also touches.
pub open spec fn mutated(
    ms: Seq<Marker>,
    kind: MutationType,
    target: int,
    second: int,
    fresh: u32,
) -> Seq<Marker> {
    match kind {
        MutationType::DELETE => ms.update(target, Marker { bits: 0 }),
        MutationType::NEW => ms.update(target, Marker { bits: fresh }),
        MutationType::DUPLICATION => ms.update(second, ms[target]),
        MutationType::REVERSAL => ms.update(second, ms[target]).update(target, ms[second]),
        MutationType::SHIFT => ms,
    }
}

/// `after` is `before` reordered, or `before` changed by one delete, new (with the
/// sample `fresh`), duplication or reversal. With `pin_influence` a reordering keeps the
/// influence marker at index 0 and reorders only the trait markers.
pub open spec fn is_mutation(
    before: Seq<Marker>,
    after: Seq<Marker>,
    fresh: u32,
    pin_influence: bool,
) -> bool {
    ||| is_shift(before, after, pin_influence)
    ||| exists|kind: MutationType, t: int, s: int|
        kind != MutationType::SHIFT && 0 <= t < before.len() && 1 <= s < before.len() && after
            == #[trigger] mutated(before, kind, t, s, fresh)
}

/// `after` holds the markers of `before` in some order; with `pin_influence`, the
/// influence marker stays first.
pub open spec fn is_shift(before: Seq<Marker>, after: Seq<Marker>, pin_influence: bool) -> bool {
    &&& after.len() == before.len()
    &&& if pin_influence {
        &&& before.len() > 0
        &&& after[0] == before[0]
        &&& after.drop_first().to_multiset() == before.drop_first().to_multiset()
    } else {
        after.to_multiset() == before.to_multiset()
    }
}

proof fn lemma_gene_text_step(ms: Seq<Marker>, i: int)
    requires
        0 <= i < ms.len(),
    ensures
        gene_text(ms.take(i + 1)) == gene_text(ms.take(i)) + marker_text(ms[i].bits),
{
    let f = |m: Marker| marker_text(m.bits);
    assert(ms.take(i + 1).map_values(f).drop_last() =~= ms.take(i).map_values(f));
}

/// A gene's text has eight characters per marker, and chunk `i` is marker `i`'s text.
pub proof fn lemma_gene_text_blocks(ms: Seq<Marker>)
    ensures
        gene_text(ms).len() == 8 * ms.len(),
        forall|i: int|
            0 <= i < ms.len() ==> #[trigger] chunk(gene_text(ms), 8, i) == marker_text(
                ms[i].bits,
            ),
{
    let b = ms.map_values(|m: Marker| marker_text(m.bits));
    assert forall|i: int| 0 <= i < b.len() implies (#[trigger] b[i]).len() == 8 by {
        lemma_marker_round_trip(ms[i]);
    }
    crate::codec::lemma_uniform_blocks(b, 8);
    assert forall|i: int| 0 <= i < ms.len() implies #[trigger] chunk(gene_text(ms), 8, i)
        == marker_text(ms[i].bits) by {
        assert(b[i] == marker_text(ms[i].bits));
    }
}

/// Reading a gene's text back gives its markers.
pub proof fn lemma_gene_round_trip(g: Gene)
    requires
        g.wf(),
    ensures
        gene_from_text(gene_text(g.markers@)) == Ok::<Seq<Marker>, DecodeError>(g.markers@),
{
    let ms = g.markers@;
    lemma_gene_text_blocks(ms);
    let s = gene_text(ms);
    assert forall|i: int| 0 <= i < s.len() / 8 implies is_hex_text(#[trigger] chunk(s, 8, i))
        && hex_number(chunk(s, 8, i)) == ms[i].bits as nat by {
        lemma_marker_round_trip(ms[i]);
    }
    lemma_hex_text_by_chunks(s, 8);
    assert(markers_from_text(s) =~= ms);
}

impl Gene {
    /// The markers count matches the declared number of trait markers, at least one.
    pub open spec fn wf(&self) -> bool {
        &&& self.num_markers >= 1
        &&& self.markers@.len() == self.num_markers + 1
    }

    /// Whether the gene is well formed: at least one trait marker, and one marker more
    /// than trait markers.
    pub fn is_well_formed(&self) -> (r: bool)
        ensures
            r == self.wf(),
    {
        self.num_markers >= 1 && self.markers.len() == self.num_markers as usize + 1
    }

    /// A gene whose markers hold `samples[start..start + num_markers + 1]`.
    pub(crate) fn from_samples(samples: &[u32], start: usize, num_markers: u16) -> (r: Gene)
        requires
            num_markers >= 1,
            start + num_markers + 1 <= samples@.len(),
        ensures
            r.wf(),
            r.num_markers == num_markers,
            values_of(r.markers@) == samples@.subrange(
                start as int,
                start + num_markers + 1,
            ),
    {
        let total = samples.len();
        let count: usize = num_markers as usize + 1;
        let mut markers: Vec<Marker> = Vec::new();
        let mut j: usize = 0;
        while j < count
            invariant
                j <= count,
                count == num_markers + 1,
                start + count <= samples@.len(),
                total == samples@.len(),
                markers@.len() == j,
                values_of(markers@) == samples@.subrange(start as int, start + j),
            decreases count - j,
        {
            let ghost before = markers@;
            markers.push(Marker::new(samples[start + j]));
            j = j + 1;
            assert(values_of(markers@) =~= samples@.subrange(start as int, start + j)) by {
                assert(values_of(markers@) =~= values_of(before).push(samples@[start + j - 1]));
            }
        }
        Gene { num_markers, markers }
    }

    /// A gene with `num_markers` trait markers, its markers holding `samples` in order
    /// (the influence marker first). The caller draws the samples from the standard
    /// normal distribution. A gene needs at least one trait marker.
    pub fn new(num_markers: u16, samples: &[u32]) -> (r: Result<Gene, BuildError>)
        requires
            samples@.len() == num_markers + 1,
        ensures
            r is Err <==> num_markers == 0,
            r matches Ok(g) ==> g.wf() && g.num_markers == num_markers && values_of(g.markers@)
                == samples@,
    {
        if num_markers < 1 {
            return Err(BuildError::NoMarkers);
        }
        let g = Gene::from_samples(samples, 0, num_markers);
        assert(samples@.subrange(0, num_markers + 1) =~= samples@);
        Ok(g)
    }

    /// The influence marker's bit pattern.
    pub fn get_influence(&self) -> (r: u32)
        requires
            self.wf(),
        ensures
            r == self.markers@[0].bits,
    {
        self.markers[0].bits
    }

    /// The bit pattern of trait marker `position` (counted from 0), if there is one.
    pub fn get_marker(&self, position: usize) -> (r: Option<u32>)
        requires
            self.wf(),
        ensures
            position < self.num_markers ==> r == Some(self.markers@[position + 1].bits),
            position >= self.num_markers ==> r is None,
    {
        if position < self.num_markers as usize {
            Some(self.markers[position + 1].bits)
        } else {
            None
        }
    }

    /// The bit patterns of the trait markers, in order, without the influence marker.
    pub fn get_markers(&self) -> (r: Vec<u32>)
        requires
            self.wf(),
        ensures
            r@ == values_of(self.markers@).drop_first(),
    {
        let n = self.markers.len();
        let mut r: Vec<u32> = Vec::new();
        let mut i: usize = 1;
        while i < n
            invariant
                1 <= i <= n,
                n == self.markers@.len(),
                r@ == values_of(self.markers@).subrange(1, i as int),
            decreases n - i,
        {
            r.push(self.markers[i].bits);
            i = i + 1;
            assert(r@ =~= values_of(self.markers@).subrange(1, i as int));
        }
        assert(r@ =~= values_of(self.markers@).drop_first());
        r
    }

    /// Appends the gene's text to `out`.
    pub(crate) fn push_text(&self, out: &mut Vec<char>)
        ensures
            final(out)@ == old(out)@ + gene_text(self.markers@),
    {
        let n = self.markers.len();
        let ghost start = out@;
        let mut i: usize = 0;
        while i < n
            invariant
                i <= n,
                n == self.markers@.len(),
                out@ == start + gene_text(self.markers@.take(i as int)),
            decreases n - i,
        {
            proof {
                lemma_gene_text_step(self.markers@, i as int);
            }
            push_hex(out, self.markers[i].bits, 8);
            i = i + 1;
            assert(out@ =~= start + gene_text(self.markers@.take(i as int)));
        }
        assert(self.markers@.take(n as int) =~= self.markers@);
    }

    /// The gene's text: each marker's eight characters, the influence marker first.
    pub fn to_string(&self) -> (r: String)
        ensures
            r@ == gene_text(self.markers@),
    {
        let mut out: Vec<char> = Vec::new();
        self.push_text(&mut out);
        assert(out@ =~= gene_text(self.markers@));
        string_of_chars(&out)
    }

    /// Reads a gene back from its text.
    pub fn decode(text: &str) -> (r: Result<Gene, DecodeError>)
        ensures
            match r {
                Ok(g) => g.wf() && gene_from_text(text@) == Ok::<Seq<Marker>, DecodeError>(
                    g.markers@,
                ),
                Err(e) => gene_from_text(text@) == Err::<Seq<Marker>, DecodeError>(e),
            },
    {
        let len = text.unicode_len();
        if len % 8 != 0 || len > 8 * 65536 {
            return Err(DecodeError::UnexpectedLength);
        }
        if len < 16 {
            return Err(DecodeError::NoMarkers);
        }
        let parts = partition_str(text, 8);
        let n = parts.len();
        assert(n == len / 8);
        let ghost want = markers_from_text(text@);
        let mut markers: Vec<Marker> = Vec::new();
        let mut i: usize = 0;
        while i < n
            invariant
                i <= n,
                n == len / 8,
                len == text@.len(),
                len % 8 == 0,
                16 <= len <= 8 * 65536,
                want == markers_from_text(text@),
                parts@.len() == n,
                forall|j: int| 0 <= j < n ==> (#[trigger] parts@[j])@ == chunk(text@, 8, j),
                markers@ == want.take(i as int),
                forall|j: int| 0 <= j < i ==> is_hex_text(#[trigger] chunk(text@, 8, j)),
            decreases n - i,
        {
            assert((i + 1) * 8 <= len);
            assert(chunk(text@, 8, i as int).len() == 8);
            match Marker::decode(parts[i]) {
                Ok(m) => {
                    markers.push(m);
                    i = i + 1;
                    assert(markers@ =~= want.take(i as int));
                },
                Err(e) => {
                    proof {
                        lemma_hex_text_by_chunks(text@, 8);
                    }
                    return Err(e);
                },
            }
        }
        proof {
            lemma_hex_text_by_chunks(text@, 8);
        }
        assert(markers@ =~= want);
        Ok(Gene { num_markers: (n - 1) as u16, markers })
    }

    /// Whether two genes hold the same markers, influence included.
    pub fn is_equal(left_gene: Gene, right_gene: Gene) -> (r: bool)
        ensures
            r == (left_gene.markers@ == right_gene.markers@),
    {
        let n = left_gene.markers.len();
        if n != right_gene.markers.len() {
            return false;
        }
        let mut i: usize = 0;
        while i < n
            invariant
                i <= n,
                n == left_gene.markers@.len(),
                n == right_gene.markers@.len(),
                forall|j: int| 0 <= j < i ==> left_gene.markers@[j] == right_gene.markers@[j],
            decreases n - i,
        {
            if left_gene.markers[i].bits != right_gene.markers[i].bits {
                return false;
            }
            i = i + 1;
        }
        assert(left_gene.markers@ =~= right_gene.markers@);
        true
    }

    /// Whether two genes have the same text.
    pub fn compare(left_gene: Gene, right_gene: Gene) -> (r: bool)
        ensures
            r == (gene_text(left_gene.markers@) == gene_text(right_gene.markers@)),
    {
        left_gene.to_string() == right_gene.to_string()
    }

    /// Sets marker `target` (0 is the influence marker) to `value`.
    pub fn set_marker(&mut self, target: usize, value: u32)
        requires
            target < old(self).markers@.len(),
        ensures
            final(self).num_markers == old(self).num_markers,
            final(self).markers@ == old(self).markers@.update(target as int, Marker { bits: value }),
    {
        self.markers.set(target, Marker::new(value));
    }

    /// Sets every marker, the influence marker included, to zero.
    pub fn zero(&mut self)
        ensures
            final(self).num_markers == old(self).num_markers,
            final(self).markers@.len() == old(self).markers@.len(),
            forall|i: int| 0 <= i < final(self).markers@.len() ==> (#[trigger] final(self).markers@[i]).bits == 0,
    {
        let n = self.markers.len();
        let mut i: usize = 0;
        while i < n
            invariant
                i <= n,
                n == self.markers@.len(),
                self.num_markers == old(self).num_markers,
                n == old(self).markers@.len(),
                forall|j: int| 0 <= j < i ==> (#[trigger] self.markers@[j]).bits == 0,
            decreases n - i,
        {
            self.set_marker(i, 0);
            i = i + 1;
        }
    }

    /// Applies one mutation of the given kind at `target`; `second` is the trait marker that
    /// a duplication overwrites or a reversal swaps with, and `fresh` the sample that a new
    /// marker takes. A shift reorders the markers at random: all of them, or with
    /// `pin_influence` only the trait markers.
    pub fn apply_mutation(
        &mut self,
        kind: MutationType,
        target: usize,
        second: usize,
        fresh: u32,
        pin_influence: bool,
    )
        requires
            old(self).wf(),
            target < old(self).markers@.len(),
            1 <= second < old(self).markers@.len(),
        ensures
            final(self).wf(),
            final(self).num_markers == old(self).num_markers,
            kind != MutationType::SHIFT ==> final(self).markers@ == mutated(
                old(self).markers@,
                kind,
                target as int,
                second as int,
                fresh,
            ),
            kind == MutationType::SHIFT ==> is_shift(
                old(self).markers@,
                final(self).markers@,
                pin_influence,
            ),
    {
        match kind {
            MutationType::DELETE => self.set_marker(target, 0),
            MutationType::NEW => self.set_marker(target, fresh),
            MutationType::DUPLICATION => {
                let value = self.markers[target].bits;
                self.set_marker(second, value);
            },
            MutationType::REVERSAL => {
                let swap_value = self.markers[second].bits;
                let value = self.markers[target].bits;
                self.set_marker(second, value);
                self.set_marker(target, swap_value);
            },
            MutationType::SHIFT => {
                if pin_influence {
                    let ghost before = self.markers@;
                    let influence = self.markers.remove(0);
                    assert(self.markers@ =~= before.drop_first());
                    shuffle(&mut self.markers);
                    let ghost rest = self.markers@;
                    self.markers.insert(0, influence);
                    assert(self.markers@.drop_first() =~= rest);
                    assert(self.markers@[0] == before[0]);
                } else {
                    shuffle(&mut self.markers);
                }
            },
        }
    }

    /// Mutates the gene once: a kind drawn among the five, a target drawn over all markers
    /// (the influence marker included) and, for a duplication or a reversal, a second
    /// target drawn among the trait markers. `fresh` is the sample a new marker takes.
    /// A shift may move the influence marker away from index 0.
    pub fn mutate(&mut self, fresh: u32)
        requires
            old(self).wf(),
        ensures
            final(self).wf(),
            final(self).num_markers == old(self).num_markers,
            is_mutation(old(self).markers@, final(self).markers@, fresh, false),
    {
        self.mutate_with(fresh, false);
    }

    /// As `mutate`; with `pin_influence` a shift keeps the influence marker at index 0.
    pub fn mutate_with(&mut self, fresh: u32, pin_influence: bool)
        requires
            old(self).wf(),
        ensures
            final(self).wf(),
            final(self).num_markers == old(self).num_markers,
            is_mutation(old(self).markers@, final(self).markers@, fresh, pin_influence),
    {
        let kind = get_mutation_type();
        let n = self.markers.len();
        let target = gen_range(0, n);
        let second = match kind {
            MutationType::DUPLICATION | MutationType::REVERSAL => gen_range(1, n),
            _ => 1,
        };
        let ghost before = self.markers@;
        self.apply_mutation(kind, target, second, fresh, pin_influence);
        proof {
            if kind != MutationType::SHIFT {
                assert(self.markers@ == mutated(before, kind, target as int, second as int, fresh));
            }
        }
    }
}

} // verus!
