//! Filtering of datasets and proteins by composable protein-level and
//! peptide-level rules.
//!
//! All rules of a kind must pass. A protein is checked against the protein
//! rules, keeps the peptides that pass every peptide rule (it is dropped if
//! none does), has its spectral and sequence counts overwritten with those of
//! the kept peptides (saturating at `u16::MAX`), and is checked against the
//! count rules once more. Channel numbers outside a peptide's values are
//! skipped, or let the peptide pass where a rule reads a single channel. The
//! coefficient-of-variation test is exact; a zero mean never fails it.
use vstd::prelude::*;

use crate::dataset::{Dataset, DatasetV, protein_views};
use crate::protein::{Peptide, PeptideV, Protein, ProteinV, is_tryptic, peptide_views};
use crate::text::{chars_of, contains_chars, contains_seq};
use crate::util::{Decimal, cv_at_least, cv_at_least_exec, lemma_sum_bounds, seq_sum};

pub mod parse;

verus! {

/// Protein-level filter
#[derive(Debug, Copy, Clone, PartialEq, Eq, Structural)]
pub enum ProteinFilter {
    /// Include only proteins that have spectral counts >= N
    SpectralCounts(u16),
    /// Include only proteins that have sequence counts >= N
    SequenceCounts(u16),
    /// Include only proteins whose accession does not contain "Reverse"
    ExcludeReverse,
}

/// Peptide-level filter
///
/// Channels are numbered from 1. A channel that a peptide does not have is
/// skipped where a rule reads several channels, and lets the peptide pass
/// where a rule reads one.
#[derive(Debug, Clone, PartialEq)]
pub enum PeptideFilter {
    /// Include only peptides whose sequence contains the pattern
    SequenceMatch(String),
    /// Include only peptides whose sequence does not contain the pattern
    SequenceExclude(String),
    /// Include only peptides whose total intensity is >= N
    TotalIntensity(u32),
    /// Include only peptides whose intensity summed over the listed channels
    /// is >= N
    TotalIntensityChannels(Vec<usize>, u32),
    /// Include only peptides whose coefficient of variation over the listed
    /// channels is < N
    ChannelCV(Vec<usize>, Decimal),
    /// Include only peptides whose intensity in the channel is >= N
    ChannelIntensity(usize, u32),
    /// Include only tryptic peptides
    Tryptic,
    /// Include only unique peptides
    Unique,
}

/// What a `PeptideFilter` holds, as mathematical values.
pub enum PeptideFilterV {
    SequenceMatch(Seq<char>),
    SequenceExclude(Seq<char>),
    TotalIntensity(u32),
    TotalIntensityChannels(Seq<usize>, u32),
    ChannelCV(Seq<usize>, Decimal),
    ChannelIntensity(usize, u32),
    Tryptic,
    Unique,
}

impl View for PeptideFilter {
    type V = PeptideFilterV;

    open spec fn view(&self) -> PeptideFilterV {
        match self {
            PeptideFilter::SequenceMatch(p) => PeptideFilterV::SequenceMatch(p@),
            PeptideFilter::SequenceExclude(p) => PeptideFilterV::SequenceExclude(p@),
            PeptideFilter::TotalIntensity(n) => PeptideFilterV::TotalIntensity(*n),
            PeptideFilter::TotalIntensityChannels(c, n) => PeptideFilterV::TotalIntensityChannels(
                c@,
                *n,
            ),
            PeptideFilter::ChannelCV(c, n) => PeptideFilterV::ChannelCV(c@, *n),
            PeptideFilter::ChannelIntensity(c, n) => PeptideFilterV::ChannelIntensity(*c, *n),
            PeptideFilter::Tryptic => PeptideFilterV::Tryptic,
            PeptideFilter::Unique => PeptideFilterV::Unique,
        }
    }
}

impl PeptideFilterV {
    /// A coefficient-of-variation rule lists at most `u32::MAX` channels and
    /// has a cutoff whose scale fits.
    pub open spec fn wf(self) -> bool {
        match self {
            PeptideFilterV::ChannelCV(c, n) => c.len() <= u32::MAX && n.wf(),
            _ => true,
        }
    }
}

/// Provides filtering functionality on datasets and proteins
#[derive(Debug, Clone, PartialEq)]
pub struct Filter {
    peptide_filters: Vec<PeptideFilter>,
    protein_filters: Vec<ProteinFilter>,
}

/// What a `Filter` holds, as mathematical values.
pub struct FilterV {
    pub peptide_filters: Seq<PeptideFilterV>,
    pub protein_filters: Seq<ProteinFilter>,
}

pub open spec fn peptide_filter_views(v: Seq<PeptideFilter>) -> Seq<PeptideFilterV> {
    v.map_values(|f: PeptideFilter| f@)
}

impl View for Filter {
    type V = FilterV;

    closed spec fn view(&self) -> FilterV {
        FilterV {
            peptide_filters: peptide_filter_views(self.peptide_filters@),
            protein_filters: self.protein_filters@,
        }
    }
}

impl FilterV {
    pub open spec fn wf(self) -> bool {
        forall|i: int| 0 <= i < self.peptide_filters.len() ==> (#[trigger] self.peptide_filters[i]).wf()
    }
}

/// The values at the listed 1-based channels, in list order, skipping the
/// channels that `values` does not have.
pub open spec fn selected(values: Seq<u32>, channels: Seq<usize>) -> Seq<u32>
    decreases channels.len(),
{
    if channels.len() == 0 {
        Seq::empty()
    } else {
        let rest = selected(values, channels.drop_last());
        let c = channels.last();
        if 1 <= c && c <= values.len() {
            rest.push(values[c - 1])
        } else {
            rest
        }
    }
}

/// Whether peptide `p` passes rule `f`.
pub open spec fn peptide_passes(f: PeptideFilterV, p: PeptideV) -> bool {
    match f {
        PeptideFilterV::SequenceMatch(pat) => contains_seq(p.sequence, pat),
        PeptideFilterV::SequenceExclude(pat) => !contains_seq(p.sequence, pat),
        PeptideFilterV::TotalIntensity(n) => seq_sum(p.values) >= n,
        PeptideFilterV::TotalIntensityChannels(c, n) => seq_sum(selected(p.values, c)) >= n,
        PeptideFilterV::ChannelCV(c, n) => !cv_at_least(selected(p.values, c), n),
        PeptideFilterV::ChannelIntensity(c, n) => !(1 <= c && c <= p.values.len() && p.values[c
            - 1] < n),
        PeptideFilterV::Tryptic => is_tryptic(p.sequence),
        PeptideFilterV::Unique => p.unique,
    }
}

/// Whether peptide `p` passes every rule of `fs`.
pub open spec fn passes_all(fs: Seq<PeptideFilterV>, p: PeptideV) -> bool {
    forall|i: int| 0 <= i < fs.len() ==> peptide_passes(#[trigger] fs[i], p)
}

/// The peptides of `peps` that pass every rule of `fs`, in order.
pub open spec fn surviving(fs: Seq<PeptideFilterV>, peps: Seq<PeptideV>) -> Seq<PeptideV> {
    peps.filter(|p: PeptideV| passes_all(fs, p))
}

pub open spec fn sequences(peps: Seq<PeptideV>) -> Seq<Seq<char>> {
    peps.map_values(|p: PeptideV| p.sequence)
}

/// The number of distinct sequences among `peps`.
pub open spec fn distinct_sequences(peps: Seq<PeptideV>) -> nat {
    sequences(peps).to_set().len()
}

/// `n`, or `u16::MAX` where `n` is larger.
pub open spec fn sat16(n: nat) -> u16 {
    if n > u16::MAX {
        u16::MAX
    } else {
        n as u16
    }
}

/// Whether protein `p`, as it stands before its peptides are filtered, passes
/// rule `f`.
pub open spec fn protein_passes(f: ProteinFilter, p: ProteinV) -> bool {
    match f {
        ProteinFilter::SpectralCounts(n) => p.spectral_count >= n,
        ProteinFilter::SequenceCounts(n) => p.sequence_count >= n,
        ProteinFilter::ExcludeReverse => !contains_seq(p.accession, "Reverse"@),
    }
}

/// Whether the counts recomputed after peptide filtering pass rule `f`.
pub open spec fn counts_pass(f: ProteinFilter, spectral: u16, sequence: u16) -> bool {
    match f {
        ProteinFilter::SpectralCounts(n) => spectral >= n,
        ProteinFilter::SequenceCounts(n) => sequence >= n,
        ProteinFilter::ExcludeReverse => true,
    }
}

pub open spec fn protein_passes_all(fs: Seq<ProteinFilter>, p: ProteinV) -> bool {
    forall|i: int| 0 <= i < fs.len() ==> protein_passes(#[trigger] fs[i], p)
}

pub open spec fn counts_pass_all(fs: Seq<ProteinFilter>, spectral: u16, sequence: u16) -> bool {
    forall|i: int| 0 <= i < fs.len() ==> counts_pass(#[trigger] fs[i], spectral, sequence)
}

/// What filtering does to one protein: it must pass the protein rules, keeps
/// the peptides that pass every peptide rule (at least one must), has its
/// counts recomputed from them, and must pass the count rules again.
pub open spec fn filtered_protein(f: FilterV, p: ProteinV) -> Option<ProteinV> {
    let kept = surviving(f.peptide_filters, p.peptides);
    let spectral = sat16(kept.len());
    let sequence = sat16(distinct_sequences(kept));
    if !protein_passes_all(f.protein_filters, p) {
        None
    } else if kept.len() == 0 {
        None
    } else if !counts_pass_all(f.protein_filters, spectral, sequence) {
        None
    } else {
        Some(ProteinV { peptides: kept, spectral_count: spectral, sequence_count: sequence, ..p })
    }
}

/// The proteins that survive filtering, in order.
pub open spec fn filtered_proteins(f: FilterV, ps: Seq<ProteinV>) -> Seq<ProteinV> {
    ps.filter_map(|p: ProteinV| filtered_protein(f, p))
}

pub open spec fn filtered_dataset(f: FilterV, d: DatasetV) -> DatasetV {
    DatasetV { proteins: filtered_proteins(f, d.proteins), channels: d.channels }
}

/// The values at the listed 1-based channels that `values` has.
pub fn select_channels(values: &Vec<u32>, channels: &Vec<usize>) -> (r: Vec<u32>)
    ensures
        r@ == selected(values@, channels@),
        r@.len() <= channels@.len(),
{
    let mut r: Vec<u32> = Vec::new();
    let mut i: usize = 0;
    while i < channels.len()
        invariant
            i <= channels.len(),
            r@ == selected(values@, channels@.subrange(0, i as int)),
            r@.len() <= i,
        decreases channels.len() - i,
    {
        assert(channels@.subrange(0, i + 1).drop_last() == channels@.subrange(0, i as int));
        let c = channels[i];
        if 1 <= c && c <= values.len() {
            r.push(values[c - 1]);
        }
        i = i + 1;
    }
    assert(channels@.subrange(0, i as int) == channels@);
    r
}

proof fn lemma_sum_prefix(v: Seq<u32>, k: int)
    requires
        0 <= k <= v.len(),
    ensures
        seq_sum(v.subrange(0, k)) <= seq_sum(v),
    decreases v.len(),
{
    if k < v.len() {
        assert(v.drop_last() == v.subrange(0, v.len() - 1));
        assert(v.drop_last().subrange(0, k) == v.subrange(0, k));
        lemma_sum_prefix(v.drop_last(), k);
    } else {
        assert(v.subrange(0, k) == v);
    }
}

/// Whether the values sum to at least `n`; the sum stops growing once it
/// reaches `n`, so it never leaves 64 bits.
pub fn sum_reaches(values: &Vec<u32>, n: u32) -> (r: bool)
    ensures
        r == (seq_sum(values@) >= n),
{
    if n == 0 {
        proof {
            lemma_sum_bounds(values@);
        }
        return true;
    }
    let mut sum: u64 = 0;
    let mut i: usize = 0;
    assert(values@.subrange(0, 0) =~= Seq::<u32>::empty());
    while i < values.len()
        invariant
            i <= values.len(),
            sum == seq_sum(values@.subrange(0, i as int)),
            sum < n,
        decreases values.len() - i,
    {
        assert(values@.subrange(0, i + 1).drop_last() == values@.subrange(0, i as int));
        sum = sum + values[i] as u64;
        i = i + 1;
        if sum >= n as u64 {
            proof {
                lemma_sum_prefix(values@, i as int);
            }
            return true;
        }
    }
    assert(values@.subrange(0, i as int) == values@);
    false
}

impl PeptideFilter {
    /// Whether `p` passes this rule
    pub fn passes(&self, p: &Peptide) -> (r: bool)
        requires
            self@.wf(),
        ensures
            r == peptide_passes(self@, p@),
    {
        match self {
            PeptideFilter::SequenceMatch(pat) => {
                contains_chars(&chars_of(p.sequence.as_str()), &chars_of(pat.as_str()))
            },
            PeptideFilter::SequenceExclude(pat) => {
                !contains_chars(&chars_of(p.sequence.as_str()), &chars_of(pat.as_str()))
            },
            PeptideFilter::TotalIntensity(n) => sum_reaches(&p.values, *n),
            PeptideFilter::TotalIntensityChannels(c, n) => {
                sum_reaches(&select_channels(&p.values, c), *n)
            },
            PeptideFilter::ChannelCV(c, n) => {
                let sample = select_channels(&p.values, c);
                !cv_at_least_exec(&sample, *n)
            },
            PeptideFilter::ChannelIntensity(c, n) => {
                !(1 <= *c && *c <= p.values.len() && p.values[*c - 1] < *n)
            },
            PeptideFilter::Tryptic => p.tryptic(),
            PeptideFilter::Unique => p.unique,
        }
    }
}

impl ProteinFilter {
    /// Whether `p`, before its peptides are filtered, passes this rule
    pub fn passes(&self, p: &Protein) -> (r: bool)
        ensures
            r == protein_passes(*self, p@),
    {
        match self {
            ProteinFilter::SpectralCounts(n) => p.spectral_count >= *n,
            ProteinFilter::SequenceCounts(n) => p.sequence_count >= *n,
            ProteinFilter::ExcludeReverse => {
                !contains_chars(&chars_of(p.accession.as_str()), &chars_of("Reverse"))
            },
        }
    }

    /// Whether recomputed counts pass this rule
    pub fn counts_pass(&self, spectral: u16, sequence: u16) -> (r: bool)
        ensures
            r == counts_pass(*self, spectral, sequence),
    {
        match self {
            ProteinFilter::SpectralCounts(n) => spectral >= *n,
            ProteinFilter::SequenceCounts(n) => sequence >= *n,
            ProteinFilter::ExcludeReverse => true,
        }
    }
}

/// The number of distinct sequences among `peps`.
pub fn count_distinct(peps: &Vec<Peptide>) -> (r: usize)
    ensures
        r as nat == distinct_sequences(peptide_views(peps@)),
{
    let ghost all = sequences(peptide_views(peps@));
    let mut count: usize = 0;
    let mut i: usize = 0;
    proof {
        all.subrange(0, 0).lemma_cardinality_of_empty_set_is_0();
    }
    while i < peps.len()
        invariant
            i <= peps.len(),
            all == sequences(peptide_views(peps@)),
            all.len() == peps.len(),
            count as nat == all.subrange(0, i as int).to_set().len(),
            count <= i,
        decreases peps.len() - i,
    {
        let mut seen = false;
        let mut j: usize = 0;
        while j < i
            invariant
                j <= i < peps.len(),
                all == sequences(peptide_views(peps@)),
                all.len() == peps.len(),
                seen == exists|k: int| 0 <= k < j && all[k] == all[i as int],
            decreases i - j,
        {
            assert(all[j as int] == peps@[j as int].sequence@);
            assert(all[i as int] == peps@[i as int].sequence@);
            if peps[j].sequence == peps[i].sequence {
                seen = true;
            }
            j = j + 1;
        }
        proof {
            let pre = all.subrange(0, i as int);
            let next = all.subrange(0, i + 1);
            assert(next == pre.push(all[i as int]));
            pre.lemma_push_to_set_commute(all[i as int]);
            vstd::seq_lib::seq_to_set_is_finite(pre);
            if seen {
                let k = choose|k: int| 0 <= k < i && all[k] == all[i as int];
                assert(pre[k] == all[i as int]);
                assert(pre.to_set().contains(all[i as int]));
                assert(pre.to_set().insert(all[i as int]) =~= pre.to_set());
            } else {
                assert(!pre.to_set().contains(all[i as int])) by {
                    if pre.to_set().contains(all[i as int]) {
                        let k = choose|k: int| 0 <= k < pre.len() && pre[k] == all[i as int];
                        assert(all[k] == all[i as int]);
                    }
                }
            }
        }
        if !seen {
            count = count + 1;
        }
        i = i + 1;
    }
    assert(all.subrange(0, i as int) == all);
    count
}

/// `n` as a `u16`, or `u16::MAX` where it is larger.
pub fn saturate16(n: usize) -> (r: u16)
    ensures
        r == sat16(n as nat),
{
    if n > 65535 {
        65535
    } else {
        n as u16
    }
}

impl Default for Filter {
    /// Construct a filter with no rules
    fn default() -> (r: Self)
        ensures
            r@.peptide_filters.len() == 0,
            r@.protein_filters.len() == 0,
    {
        Filter { peptide_filters: Vec::new(), protein_filters: Vec::new() }
    }
}

impl Filter {
    pub open spec fn wf(&self) -> bool {
        self@.wf()
    }

    /// Whether every coefficient-of-variation rule lists at most `u32::MAX`
    /// channels and has a cutoff whose scale fits, as filtering requires
    pub fn is_well_formed(&self) -> (r: bool)
        ensures
            r == self.wf(),
    {
        let mut i: usize = 0;
        while i < self.peptide_filters.len()
            invariant
                i <= self.peptide_filters.len(),
                forall|k: int| 0 <= k < i ==> (#[trigger] self@.peptide_filters[k]).wf(),
            decreases self.peptide_filters.len() - i,
        {
            assert(self@.peptide_filters[i as int] == self.peptide_filters@[i as int]@);
            match &self.peptide_filters[i] {
                PeptideFilter::ChannelCV(c, d) => {
                    if c.len() > 4294967295 || d.scale > crate::util::MAX_SCALE {
                        return false;
                    }
                },
                _ => {},
            }
            i = i + 1;
        }
        true
    }

    /// The peptide rules, in the order they were added
    pub fn peptide_filters(&self) -> (r: &Vec<PeptideFilter>)
        ensures
            peptide_filter_views(r@) == self@.peptide_filters,
    {
        &self.peptide_filters
    }

    /// The protein rules, in the order they were added
    pub fn protein_filters(&self) -> (r: &Vec<ProteinFilter>)
        ensures
            r@ == self@.protein_filters,
    {
        &self.protein_filters
    }

    /// Add a new `ProteinFilter` to the `Filter` object.
    pub fn add_protein_filter(self, filter: ProteinFilter) -> (r: Self)
        ensures
            r@.protein_filters == self@.protein_filters.push(filter),
            r@.peptide_filters == self@.peptide_filters,
    {
        let mut s = self;
        s.protein_filters.push(filter);
        s
    }

    /// Add a new `PeptideFilter` to the `Filter` object.
    pub fn add_peptide_filter(self, filter: PeptideFilter) -> (r: Self)
        ensures
            r@.peptide_filters == self@.peptide_filters.push(filter@),
            r@.protein_filters == self@.protein_filters,
    {
        let mut s = self;
        let ghost before = s.peptide_filters@;
        s.peptide_filters.push(filter);
        assert(peptide_filter_views(s.peptide_filters@) =~= peptide_filter_views(before).push(
            filter@,
        ));
        s
    }

    /// Whether `p` passes every peptide rule
    fn peptide_passes_all(&self, p: &Peptide) -> (r: bool)
        requires
            self.wf(),
        ensures
            r == passes_all(self@.peptide_filters, p@),
    {
        let mut i: usize = 0;
        while i < self.peptide_filters.len()
            invariant
                self.wf(),
                i <= self.peptide_filters.len(),
                forall|k: int| 0 <= k < i ==> peptide_passes(#[trigger] self@.peptide_filters[k], p@),
            decreases self.peptide_filters.len() - i,
        {
            assert(self@.peptide_filters[i as int] == self.peptide_filters@[i as int]@);
            if !self.peptide_filters[i].passes(p) {
                return false;
            }
            i = i + 1;
        }
        true
    }

    /// Filter a `Protein`: `None` where it fails a protein rule before or
    /// after its peptides are filtered, or keeps no peptide; else the protein
    /// with the peptides that pass every peptide rule, and its counts
    /// recomputed from them.
    pub fn filter_protein(&self, protein: Protein) -> (r: Option<Protein>)
        requires
            self.wf(),
        ensures
            r is Some == filtered_protein(self@, protein@) is Some,
            r is Some ==> r->0@ == filtered_protein(self@, protein@)->0,
    {
        let ghost pv = protein@;
        let mut i: usize = 0;
        while i < self.protein_filters.len()
            invariant
                i <= self.protein_filters.len(),
                forall|k: int| 0 <= k < i ==> protein_passes(#[trigger] self@.protein_filters[k], pv),
                pv == protein@,
            decreases self.protein_filters.len() - i,
        {
            if !self.protein_filters[i].passes(&protein) {
                assert(!protein_passes(self@.protein_filters[i as int], pv));
                return None;
            }
            i = i + 1;
        }
        let Protein {
            accession,
            description,
            spectral_count,
            sequence_count,
            sequence_coverage,
            molecular_weight,
            peptides,
            channels,
        } = protein;
        let ghost fs = self@.peptide_filters;
        let mut kept: Vec<Peptide> = Vec::new();
        for pep in it: peptides.into_iter()
            invariant
                self.wf(),
                fs == self@.peptide_filters,
                pv == protein@,
                protein_passes_all(self@.protein_filters, pv),
                peptide_views(it.seq()) == pv.peptides,
                peptide_views(kept@) == surviving(fs, peptide_views(it.seq().subrange(0, it.index() as int))),
                it.index() == it.seq().len() ==> peptide_views(kept@) == surviving(fs, pv.peptides),
        {
            assert(it.seq().subrange(0, it.seq().len() as int) =~= it.seq());
            let ghost before = kept@;
            let ghost pre = peptide_views(it.seq().subrange(0, it.index() as int));
            let ghost next = peptide_views(it.seq().subrange(0, it.index() + 1));
            let ghost cur = pep@;
            assert(next.drop_last() =~= pre);
            assert(next.last() == cur);
            let keep = self.peptide_passes_all(&pep);
            if keep {
                kept.push(pep);
                assert(peptide_views(kept@) =~= peptide_views(before).push(cur));
            } else {
                assert(peptide_views(kept@) =~= peptide_views(before));
            }
            assert(next =~= pre.push(cur));
            proof {
                pre.lemma_filter_push(cur, |p: PeptideV| passes_all(fs, p));
            }
            assert(surviving(fs, next) == if keep {
                surviving(fs, pre).push(cur)
            } else {
                surviving(fs, pre)
            });
        }
        assert(peptide_views(kept@) == surviving(fs, pv.peptides));
        if kept.len() == 0 {
            return None;
        }
        let spectral = saturate16(kept.len());
        let sequence = saturate16(count_distinct(&kept));
        let mut i: usize = 0;
        while i < self.protein_filters.len()
            invariant
                i <= self.protein_filters.len(),
                fs == self@.peptide_filters,
                pv == protein@,
                spectral == sat16(surviving(fs, pv.peptides).len()),
                sequence == sat16(distinct_sequences(surviving(fs, pv.peptides))),
                protein_passes_all(self@.protein_filters, pv),
                surviving(fs, pv.peptides).len() > 0,
                forall|k: int|
                    0 <= k < i ==> counts_pass(#[trigger] self@.protein_filters[k], spectral, sequence),
            decreases self.protein_filters.len() - i,
        {
            if !self.protein_filters[i].counts_pass(spectral, sequence) {
                assert(!counts_pass(self@.protein_filters[i as int], spectral, sequence));
                return None;
            }
            i = i + 1;
        }
        Some(
            Protein {
                accession,
                description,
                spectral_count: spectral,
                sequence_count: sequence,
                sequence_coverage,
                molecular_weight,
                peptides: kept,
                channels,
            },
        )
    }

    /// Return a new `Dataset` that holds the proteins that survive filtering
    pub fn filter_dataset(&self, dataset: Dataset) -> (r: Dataset)
        requires
            self.wf(),
        ensures
            r@ == filtered_dataset(self@, dataset@),
    {
        let Dataset { proteins, channels } = dataset;
        let ghost all = protein_views(proteins@);
        let mut out: Vec<Protein> = Vec::new();
        for prot in it: proteins.into_iter()
            invariant
                self.wf(),
                protein_views(it.seq()) == all,
                protein_views(out@) == filtered_proteins(self@, protein_views(it.seq().subrange(0, it.index() as int))),
                it.index() == it.seq().len() ==> protein_views(out@) == filtered_proteins(self@, all),
        {
            assert(it.seq().subrange(0, it.seq().len() as int) =~= it.seq());
            let ghost before = out@;
            let ghost pre = protein_views(it.seq().subrange(0, it.index() as int));
            let ghost next = protein_views(it.seq().subrange(0, it.index() + 1));
            assert(next.drop_last() =~= pre);
            assert(next.last() == prot@);
            let ghost pv = prot@;
            match self.filter_protein(prot) {
                Some(p) => {
                    out.push(p);
                    assert(protein_views(out@) =~= protein_views(before).push(p@));
                    assert(protein_views(out@) =~= protein_views(before) + seq![p@]);
                },
                None => {},
            }
        }
        Dataset { proteins: out, channels }
    }
}

/// A protein whose counts are those that filtering would recompute, and that
/// has at least one peptide.
pub open spec fn counts_consistent(p: ProteinV) -> bool {
    &&& p.peptides.len() > 0
    &&& p.spectral_count == sat16(p.peptides.len())
    &&& p.sequence_count == sat16(distinct_sequences(p.peptides))
}

/// Every rule of `small` is also a rule of `big`.
pub open spec fn includes_rules(big: FilterV, small: FilterV) -> bool {
    &&& forall|x: ProteinFilter| small.protein_filters.contains(x) ==> big.protein_filters.contains(x)
    &&& forall|x: PeptideFilterV| small.peptide_filters.contains(x) ==> big.peptide_filters.contains(x)
}

/// The number of peptides over all of `ps`.
pub open spec fn peptide_count(ps: Seq<ProteinV>) -> int
    decreases ps.len(),
{
    if ps.len() == 0 {
        0
    } else {
        peptide_count(ps.drop_last()) + ps.last().peptides.len()
    }
}

proof fn lemma_filter_all<A>(s: Seq<A>, pred: spec_fn(A) -> bool)
    requires
        forall|i: int| 0 <= i < s.len() ==> pred(#[trigger] s[i]),
    ensures
        s.filter(pred) == s,
    decreases s.len(),
{
    if s.len() > 0 {
        let t = s.drop_last();
        assert forall|i: int| 0 <= i < t.len() implies pred(#[trigger] t[i]) by {
            assert(t[i] == s[i]);
        }
        lemma_filter_all(t, pred);
        assert(pred(s[s.len() - 1]));
        assert(t.push(s.last()) =~= s);
        t.lemma_filter_push(s.last(), pred);
    } else {
        reveal(Seq::filter);
    }
}

proof fn lemma_filter_twice<A>(s: Seq<A>, pred: spec_fn(A) -> bool)
    ensures
        s.filter(pred).filter(pred) == s.filter(pred),
{
    broadcast use vstd::seq_lib::group_filter_ensures;

    let t = s.filter(pred);
    assert forall|i: int| 0 <= i < t.len() implies pred(#[trigger] t[i]) by {
        s.lemma_filter_pred(pred, i);
    }
    lemma_filter_all(t, pred);
}

/// Keeping fewer elements keeps no more of them and no new sequences.
proof fn lemma_surviving_fewer(small: Seq<PeptideFilterV>, big: Seq<PeptideFilterV>, s: Seq<PeptideV>)
    requires
        forall|p: PeptideV| passes_all(big, p) ==> passes_all(small, p),
    ensures
        surviving(big, s).len() <= surviving(small, s).len(),
        sequences(surviving(big, s)).to_set().subset_of(sequences(surviving(small, s)).to_set()),
    decreases s.len(),
{
    if s.len() > 0 {
        let t = s.drop_last();
        let e = s.last();
        lemma_surviving_fewer(small, big, t);
        let kb = surviving(big, t);
        let ks = surviving(small, t);
        let pb = |p: PeptideV| passes_all(big, p);
        let psm = |p: PeptideV| passes_all(small, p);
        assert(t.push(e) =~= s);
        t.lemma_filter_push(e, pb);
        t.lemma_filter_push(e, psm);
        assert(surviving(big, s) == if pb(e) { kb.push(e) } else { kb });
        assert(surviving(small, s) == if psm(e) { ks.push(e) } else { ks });
        assert(sequences(kb.push(e)) =~= sequences(kb).push(e.sequence));
        assert(sequences(ks.push(e)) =~= sequences(ks).push(e.sequence));
        sequences(kb).lemma_push_to_set_commute(e.sequence);
        sequences(ks).lemma_push_to_set_commute(e.sequence);
        let sb = sequences(kb).to_set();
        let ss = sequences(ks).to_set();
        assert(sb.subset_of(ss));
        if pb(e) {
            assert(psm(e));
            assert(sb.insert(e.sequence).subset_of(ss.insert(e.sequence)));
        } else if psm(e) {
            assert(sb.subset_of(ss.insert(e.sequence)));
        }
    } else {
        reveal(Seq::filter);
        assert(sequences(surviving(big, s)) =~= Seq::<Seq<char>>::empty());
    }
}

proof fn lemma_passes_included(big: FilterV, small: FilterV, p: PeptideV)
    requires
        includes_rules(big, small),
        passes_all(big.peptide_filters, p),
    ensures
        passes_all(small.peptide_filters, p),
{
    assert forall|i: int| 0 <= i < small.peptide_filters.len() implies peptide_passes(
        #[trigger] small.peptide_filters[i],
        p,
    ) by {
        assert(small.peptide_filters.contains(small.peptide_filters[i]));
        let j = choose|j: int|
            0 <= j < big.peptide_filters.len() && big.peptide_filters[j] == small.peptide_filters[i];
    }
}

/// A protein that survives a filter with more rules survives one with fewer,
/// with no fewer peptides.
proof fn lemma_protein_monotone(small: FilterV, big: FilterV, p: ProteinV)
    requires
        includes_rules(big, small),
    ensures
        filtered_protein(big, p) is Some ==> filtered_protein(small, p) is Some
            && filtered_protein(big, p)->0.peptides.len() <= filtered_protein(small, p)->0.peptides.len(),
{
    assert forall|q: PeptideV| passes_all(big.peptide_filters, q) implies passes_all(
        small.peptide_filters,
        q,
    ) by {
        lemma_passes_included(big, small, q);
    }
    lemma_surviving_fewer(small.peptide_filters, big.peptide_filters, p.peptides);
    let kb = surviving(big.peptide_filters, p.peptides);
    let ks = surviving(small.peptide_filters, p.peptides);
    vstd::seq_lib::seq_to_set_is_finite(sequences(ks));
    vstd::set_lib::lemma_len_subset(sequences(kb).to_set(), sequences(ks).to_set());
    if filtered_protein(big, p) is Some {
        assert forall|i: int| 0 <= i < small.protein_filters.len() implies protein_passes(
            #[trigger] small.protein_filters[i],
            p,
        ) && counts_pass(small.protein_filters[i], sat16(ks.len()), sat16(distinct_sequences(ks)))
            by {
            assert(small.protein_filters.contains(small.protein_filters[i]));
            let j = choose|j: int|
                0 <= j < big.protein_filters.len() && big.protein_filters[j]
                    == small.protein_filters[i];
            assert(protein_passes(big.protein_filters[j], p));
            assert(counts_pass(big.protein_filters[j], sat16(kb.len()), sat16(distinct_sequences(kb))));
        }
    }
}

/// Adding rules to a filter never lets more proteins, or more peptides,
/// through.
pub proof fn lemma_more_rules_keep_less(small: FilterV, big: FilterV, d: DatasetV)
    requires
        includes_rules(big, small),
    ensures
        filtered_dataset(big, d).proteins.len() <= filtered_dataset(small, d).proteins.len(),
        peptide_count(filtered_dataset(big, d).proteins) <= peptide_count(
            filtered_dataset(small, d).proteins,
        ),
    decreases d.proteins.len(),
{
    let ps = d.proteins;
    if ps.len() > 0 {
        let rest = DatasetV { proteins: ps.drop_last(), channels: d.channels };
        lemma_more_rules_keep_less(small, big, rest);
        lemma_protein_monotone(small, big, ps.last());
        let fb = filtered_proteins(big, ps.drop_last());
        let fs = filtered_proteins(small, ps.drop_last());
        if let Some(q) = filtered_protein(big, ps.last()) {
            assert((fb + seq![q]).drop_last() =~= fb);
        }
        if let Some(q) = filtered_protein(small, ps.last()) {
            assert((fs + seq![q]).drop_last() =~= fs);
        }
    }
}

/// With no rules, filtering keeps every protein whose counts are already
/// those that filtering recomputes, unchanged.
pub proof fn lemma_empty_filter_keeps_all(f: FilterV, d: DatasetV)
    requires
        f.peptide_filters.len() == 0,
        f.protein_filters.len() == 0,
        forall|i: int| 0 <= i < d.proteins.len() ==> counts_consistent(#[trigger] d.proteins[i]),
    ensures
        filtered_dataset(f, d) == d,
    decreases d.proteins.len(),
{
    let ps = d.proteins;
    if ps.len() > 0 {
        let rest = DatasetV { proteins: ps.drop_last(), channels: d.channels };
        assert forall|i: int| 0 <= i < rest.proteins.len() implies counts_consistent(
            #[trigger] rest.proteins[i],
        ) by {
            assert(rest.proteins[i] == ps[i]);
        }
        lemma_empty_filter_keeps_all(f, rest);
        let p = ps.last();
        assert(counts_consistent(ps[ps.len() - 1]));
        lemma_filter_all(p.peptides, |q: PeptideV| passes_all(f.peptide_filters, q));
        assert(filtered_protein(f, p) == Some(p));
        assert(ps.drop_last() + seq![p] =~= ps);
    } else {
        assert(filtered_proteins(f, ps) =~= ps);
    }
}

/// A protein that filtering keeps is kept unchanged when filtered again.
proof fn lemma_protein_idempotent(f: FilterV, p: ProteinV)
    ensures
        filtered_protein(f, p) matches Some(q) ==> filtered_protein(f, q) == Some(q),
{
    if let Some(q) = filtered_protein(f, p) {
        lemma_filter_twice(p.peptides, |x: PeptideV| passes_all(f.peptide_filters, x));
        assert forall|i: int| 0 <= i < f.protein_filters.len() implies protein_passes(
            #[trigger] f.protein_filters[i],
            q,
        ) by {
            assert(protein_passes(f.protein_filters[i], p));
            assert(counts_pass(f.protein_filters[i], q.spectral_count, q.sequence_count));
        }
    }
}

/// Filtering a second time with the same filter changes nothing.
pub proof fn lemma_filter_idempotent(f: FilterV, d: DatasetV)
    ensures
        filtered_dataset(f, filtered_dataset(f, d)) == filtered_dataset(f, d),
    decreases d.proteins.len(),
{
    let ps = d.proteins;
    if ps.len() > 0 {
        let rest = DatasetV { proteins: ps.drop_last(), channels: d.channels };
        lemma_filter_idempotent(f, rest);
        let a = filtered_proteins(f, ps.drop_last());
        lemma_protein_idempotent(f, ps.last());
        if let Some(q) = filtered_protein(f, ps.last()) {
            assert((a + seq![q]).drop_last() =~= a);
            assert((a + seq![q]).last() == q);
        }
    } else {
        assert(filtered_proteins(f, ps) =~= ps);
        assert(filtered_proteins(f, filtered_proteins(f, ps)) =~= ps);
    }
}

/// The order of the rules, and rules given twice, do not matter: filters
/// with the same sets of rules filter alike.
pub proof fn lemma_rule_order_irrelevant(f: FilterV, g: FilterV, d: DatasetV)
    requires
        f.protein_filters.to_set() == g.protein_filters.to_set(),
        f.peptide_filters.to_set() == g.peptide_filters.to_set(),
    ensures
        filtered_dataset(f, d) == filtered_dataset(g, d),
{
    assert(includes_rules(f, g) && includes_rules(g, f)) by {
        assert forall|x: ProteinFilter| g.protein_filters.contains(x) implies f.protein_filters.contains(x) by {
            assert(g.protein_filters.to_set().contains(x));
        }
        assert forall|x: ProteinFilter| f.protein_filters.contains(x) implies g.protein_filters.contains(x) by {
            assert(f.protein_filters.to_set().contains(x));
        }
        assert forall|x: PeptideFilterV| g.peptide_filters.contains(x) implies f.peptide_filters.contains(x) by {
            assert(g.peptide_filters.to_set().contains(x));
        }
        assert forall|x: PeptideFilterV| f.peptide_filters.contains(x) implies g.peptide_filters.contains(x) by {
            assert(f.peptide_filters.to_set().contains(x));
        }
    }
    assert forall|p: ProteinV| filtered_protein(f, p) == filtered_protein(g, p) by {
        assert forall|q: PeptideV| passes_all(f.peptide_filters, q) == passes_all(g.peptide_filters, q) by {
            if passes_all(f.peptide_filters, q) {
                lemma_passes_included(f, g, q);
            }
            if passes_all(g.peptide_filters, q) {
                lemma_passes_included(g, f, q);
            }
        }
        let pf = |q: PeptideV| passes_all(f.peptide_filters, q);
        let pg = |q: PeptideV| passes_all(g.peptide_filters, q);
        assert(pf =~= pg);
        assert(surviving(f.peptide_filters, p.peptides) == surviving(g.peptide_filters, p.peptides));
        let kept = surviving(f.peptide_filters, p.peptides);
        let sp = sat16(kept.len());
        let sq = sat16(distinct_sequences(kept));
        assert(protein_passes_all(f.protein_filters, p) == protein_passes_all(g.protein_filters, p)) by {
            if protein_passes_all(f.protein_filters, p) {
                assert forall|i: int| 0 <= i < g.protein_filters.len() implies protein_passes(#[trigger] g.protein_filters[i], p) by {
                    assert(g.protein_filters.contains(g.protein_filters[i]));
                    let j = choose|j: int| 0 <= j < f.protein_filters.len() && f.protein_filters[j] == g.protein_filters[i];
                }
            }
            if protein_passes_all(g.protein_filters, p) {
                assert forall|i: int| 0 <= i < f.protein_filters.len() implies protein_passes(#[trigger] f.protein_filters[i], p) by {
                    assert(f.protein_filters.contains(f.protein_filters[i]));
                    let j = choose|j: int| 0 <= j < g.protein_filters.len() && g.protein_filters[j] == f.protein_filters[i];
                }
            }
        }
        assert(counts_pass_all(f.protein_filters, sp, sq) == counts_pass_all(g.protein_filters, sp, sq)) by {
            if counts_pass_all(f.protein_filters, sp, sq) {
                assert forall|i: int| 0 <= i < g.protein_filters.len() implies counts_pass(#[trigger] g.protein_filters[i], sp, sq) by {
                    assert(g.protein_filters.contains(g.protein_filters[i]));
                    let j = choose|j: int| 0 <= j < f.protein_filters.len() && f.protein_filters[j] == g.protein_filters[i];
                }
            }
            if counts_pass_all(g.protein_filters, sp, sq) {
                assert forall|i: int| 0 <= i < f.protein_filters.len() implies counts_pass(#[trigger] f.protein_filters[i], sp, sq) by {
                    assert(f.protein_filters.contains(f.protein_filters[i]));
                    let j = choose|j: int| 0 <= j < g.protein_filters.len() && g.protein_filters[j] == f.protein_filters[i];
                }
            }
        }
    }
    let ff = |p: ProteinV| filtered_protein(f, p);
    let gg = |p: ProteinV| filtered_protein(g, p);
    assert(ff =~= gg);
}

/// A protein with its counts recomputed from its own peptides.
pub open spec fn recounted(p: ProteinV) -> ProteinV {
    ProteinV {
        spectral_count: sat16(p.peptides.len()),
        sequence_count: sat16(distinct_sequences(p.peptides)),
        ..p
    }
}

/// With no rules, filtering keeps exactly the proteins that have peptides,
/// in order, with their peptides unchanged and their counts recomputed.
pub proof fn lemma_empty_filter(f: FilterV, d: DatasetV)
    requires
        f.peptide_filters.len() == 0,
        f.protein_filters.len() == 0,
    ensures
        filtered_dataset(f, d) == (DatasetV {
            proteins: d.proteins.filter_map(
                |p: ProteinV|
                    if p.peptides.len() > 0 {
                        Some(recounted(p))
                    } else {
                        None
                    },
            ),
            channels: d.channels,
        }),
{
    let g = |p: ProteinV| if p.peptides.len() > 0 {
        Some(recounted(p))
    } else {
        None
    };
    assert forall|p: ProteinV| filtered_protein(f, p) == g(p) by {
        lemma_filter_all(p.peptides, |q: PeptideV| passes_all(f.peptide_filters, q));
    }
    let h = |p: ProteinV| filtered_protein(f, p);
    assert(h =~= g);
}

/// Filtering by `narrow`, which implies `wide`, keeps what filtering the
/// result of `wide` by `narrow` keeps.
proof fn lemma_filter_narrower<A>(s: Seq<A>, wide: spec_fn(A) -> bool, narrow: spec_fn(A) -> bool)
    requires
        forall|x: A| #[trigger] narrow(x) ==> wide(x),
    ensures
        s.filter(narrow) == s.filter(wide).filter(narrow),
    decreases s.len(),
{
    if s.len() > 0 {
        let t = s.drop_last();
        let e = s.last();
        lemma_filter_narrower(t, wide, narrow);
        assert(t.push(e) =~= s);
        t.lemma_filter_push(e, wide);
        t.lemma_filter_push(e, narrow);
        t.filter(wide).lemma_filter_push(e, narrow);
    } else {
        reveal(Seq::filter);
    }
}

/// The positions, among `ps`, of the proteins that filtering keeps.
pub open spec fn kept_positions(f: FilterV, ps: Seq<ProteinV>) -> Seq<int> {
    Seq::new(ps.len(), |i: int| i).filter(|i: int| filtered_protein(f, ps[i]) is Some)
}

/// The filtered proteins are those at the kept positions, in order.
pub proof fn lemma_kept_positions(f: FilterV, ps: Seq<ProteinV>)
    ensures
        filtered_proteins(f, ps) == kept_positions(f, ps).map_values(
            |i: int| filtered_protein(f, ps[i])->0,
        ),
{
    lemma_kept_prefix(f, ps, ps.len() as int);
    assert(ps.subrange(0, ps.len() as int) == ps);
}

proof fn lemma_kept_prefix(f: FilterV, ps: Seq<ProteinV>, k: int)
    requires
        0 <= k <= ps.len(),
    ensures
        filtered_proteins(f, ps.subrange(0, k)) == Seq::new(k as nat, |i: int| i).filter(
            |i: int| filtered_protein(f, ps[i]) is Some,
        ).map_values(|i: int| filtered_protein(f, ps[i])->0),
    decreases k,
{
    let pred = |i: int| filtered_protein(f, ps[i]) is Some;
    let val = |i: int| filtered_protein(f, ps[i])->0;
    if k == 0 {
        reveal(Seq::filter);
        assert(ps.subrange(0, 0) =~= Seq::<ProteinV>::empty());
        assert(Seq::new(0, |i: int| i).filter(pred).map_values(val) =~= Seq::<ProteinV>::empty());
    } else {
        lemma_kept_prefix(f, ps, k - 1);
        let pre = Seq::new((k - 1) as nat, |i: int| i);
        assert(Seq::new(k as nat, |i: int| i) =~= pre.push(k - 1));
        pre.lemma_filter_push(k - 1, pred);
        assert(ps.subrange(0, k).drop_last() =~= ps.subrange(0, k - 1));
        assert(ps.subrange(0, k).last() == ps[k - 1]);
        let a = pre.filter(pred);
        assert(a.push(k - 1).map_values(val) =~= a.map_values(val).push(val(k - 1)));
        assert(a.map_values(val) + seq![val(k - 1)] =~= a.map_values(val).push(val(k - 1)));
    }
}

/// Adding rules keeps a subsequence: the proteins kept by the larger filter
/// are those kept by the smaller one that the larger also keeps, and each of
/// them keeps the peptides kept by the smaller filter that pass the larger
/// one's peptide rules.
pub proof fn lemma_more_rules_keep_subsequence(small: FilterV, big: FilterV, d: DatasetV)
    requires
        includes_rules(big, small),
    ensures
        kept_positions(big, d.proteins) == kept_positions(small, d.proteins).filter(
            |i: int| filtered_protein(big, d.proteins[i]) is Some,
        ),
        forall|p: ProteinV|
            #[trigger] filtered_protein(big, p) is Some ==> filtered_protein(small, p) is Some
                && filtered_protein(big, p)->0.peptides == filtered_protein(small, p)->0.peptides.filter(
                |x: PeptideV| passes_all(big.peptide_filters, x),
            ),
{
    let ps = d.proteins;
    let nb = |i: int| filtered_protein(big, ps[i]) is Some;
    let ws = |i: int| filtered_protein(small, ps[i]) is Some;
    assert forall|i: int| #[trigger] nb(i) implies ws(i) by {
        lemma_protein_monotone(small, big, ps[i]);
    }
    lemma_filter_narrower(Seq::new(ps.len(), |i: int| i), ws, nb);
    let pb = |x: PeptideV| passes_all(big.peptide_filters, x);
    let psm = |x: PeptideV| passes_all(small.peptide_filters, x);
    assert forall|x: PeptideV| #[trigger] pb(x) implies psm(x) by {
        lemma_passes_included(big, small, x);
    }
    assert forall|p: ProteinV|
        #[trigger] filtered_protein(big, p) is Some implies filtered_protein(small, p) is Some
            && filtered_protein(big, p)->0.peptides == filtered_protein(small, p)->0.peptides.filter(pb) by {
        lemma_protein_monotone(small, big, p);
        lemma_filter_narrower(p.peptides, psm, pb);
    }
}

} // verus!
