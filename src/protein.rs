//! Proteins and their peptides, with the accessors that read them.
use vstd::prelude::*;

use crate::text::{chars_of, split, split_chars};

verus! {

/// Peptide-level quantification data.
#[derive(Debug, Clone, Default, PartialEq)]
pub struct Peptide {
    /// Peptide sequence, written `X.CORE.Y` with its flanking residues
    pub sequence: String,
    /// Raw ion intensity of each channel, in channel order
    pub values: Vec<u32>,
    /// Whether the peptide is unique to its protein
    pub unique: bool,
    /// Scan number, `0` where the record does not carry one
    pub scan: usize,
}

/// What a `Peptide` holds, as mathematical values.
pub struct PeptideV {
    pub sequence: Seq<char>,
    pub values: Seq<u32>,
    pub unique: bool,
    pub scan: usize,
}

impl View for Peptide {
    type V = PeptideV;

    open spec fn view(&self) -> PeptideV {
        PeptideV {
            sequence: self.sequence@,
            values: self.values@,
            unique: self.unique,
            scan: self.scan,
        }
    }
}

/// Protein-level data, and the peptides reported under the protein.
#[derive(Debug, Clone, Default, PartialEq)]
pub struct Protein {
    /// Accession identifier
    pub accession: String,
    /// Long-form description
    pub description: String,
    /// Number of spectral counts
    pub spectral_count: u16,
    /// Number of distinct peptide sequences
    pub sequence_count: u16,
    /// Sequence coverage: the percent numeral of the record, `%` removed
    pub sequence_coverage: String,
    /// Molecular weight
    pub molecular_weight: u32,
    /// Peptides, in the order of the report
    pub peptides: Vec<Peptide>,
    /// Number of channels of each peptide
    pub channels: u8,
}

/// What a `Protein` holds, as mathematical values.
pub struct ProteinV {
    pub accession: Seq<char>,
    pub description: Seq<char>,
    pub spectral_count: u16,
    pub sequence_count: u16,
    pub sequence_coverage: Seq<char>,
    pub molecular_weight: u32,
    pub peptides: Seq<PeptideV>,
    pub channels: u8,
}

pub open spec fn peptide_views(v: Seq<Peptide>) -> Seq<PeptideV> {
    v.map_values(|p: Peptide| p@)
}

impl View for Protein {
    type V = ProteinV;

    open spec fn view(&self) -> ProteinV {
        ProteinV {
            accession: self.accession@,
            description: self.description@,
            spectral_count: self.spectral_count,
            sequence_count: self.sequence_count,
            sequence_coverage: self.sequence_coverage@,
            molecular_weight: self.molecular_weight,
            peptides: peptide_views(self.peptides@),
            channels: self.channels,
        }
    }
}

/// A sequence with two tryptic ends: it begins with `K`, `R` or `-` (the
/// N-terminus), and the part between the first and the second `.` is not
/// empty and ends in `K` or `R`, unless the sequence ends in `-` (the
/// C-terminus).
pub open spec fn is_tryptic(s: Seq<char>) -> bool {
    let parts = split(s, '.');
    &&& s.len() > 0
    &&& s[0] == 'K' || s[0] == 'R' || s[0] == '-'
    &&& parts.len() >= 2
    &&& parts[1].len() > 0
    &&& parts[1].last() == 'K' || parts[1].last() == 'R' || s.last() == '-'
}

/// The summed intensity of channel `c` over `peps`.
pub open spec fn channel_total(peps: Seq<PeptideV>, c: int) -> int
    decreases peps.len(),
{
    if peps.len() == 0 {
        0
    } else {
        channel_total(peps.drop_last(), c) + peps.last().values[c]
    }
}

impl Protein {
    /// Every peptide has a value for each of the protein's channels, and each
    /// channel's sum fits a `u32`.
    pub open spec fn totals_fit(self) -> bool {
        &&& forall|i: int|
            0 <= i < self.peptides@.len() ==> self.channels <= (#[trigger] self.peptides@[i]).values@.len()
        &&& forall|c: int|
            0 <= c < self.channels ==> #[trigger] channel_total(self@.peptides, c) <= u32::MAX
    }

    /// Return the summed intensities of each channel over all peptides
    pub fn total(&self) -> (r: Vec<u32>)
        requires
            self.totals_fit(),
        ensures
            r@.len() == self.channels,
            forall|c: int| 0 <= c < self.channels ==> r@[c] == channel_total(self@.peptides, c),
    {
        let mut v: Vec<u32> = Vec::new();
        let mut c: u8 = 0;
        while c < self.channels
            invariant
                self.totals_fit(),
                c <= self.channels,
                v@.len() == c,
                forall|k: int| 0 <= k < c ==> v@[k] == channel_total(self@.peptides, k),
            decreases self.channels - c,
        {
            let mut sum: u32 = 0;
            let mut i: usize = 0;
            while i < self.peptides.len()
                invariant
                    self.totals_fit(),
                    c < self.channels,
                    i <= self.peptides.len(),
                    sum == channel_total(self@.peptides.subrange(0, i as int), c as int),
                decreases self.peptides.len() - i,
            {
                proof {
                    let all = self@.peptides;
                    let pre = all.subrange(0, i as int);
                    let next = all.subrange(0, i + 1);
                    assert(next.drop_last() == pre);
                    lemma_channel_total_prefix(all, i + 1, c as int);
                    assert(self.peptides@[i as int]@ == all[i as int]);
                }
                sum = sum + self.peptides[i].values[c as usize];
                i = i + 1;
            }
            proof {
                assert(self@.peptides.subrange(0, i as int) == self@.peptides);
            }
            v.push(sum);
            c = c + 1;
        }
        v
    }
}

impl Protein {
    /// The summed intensities of each channel, or `None` where a peptide has
    /// fewer values than the protein has channels or a sum exceeds `u32::MAX`
    pub fn try_total(&self) -> (r: Option<Vec<u32>>)
        ensures
            r is Some == self.totals_fit(),
            r matches Some(v) ==> v@.len() == self.channels && forall|c: int|
                0 <= c < self.channels ==> v@[c] == channel_total(self@.peptides, c),
    {
        let mut i: usize = 0;
        while i < self.peptides.len()
            invariant
                i <= self.peptides.len(),
                forall|k: int| 0 <= k < i ==> self.channels <= (#[trigger] self.peptides@[k]).values@.len(),
            decreases self.peptides.len() - i,
        {
            if self.peptides[i].values.len() < self.channels as usize {
                return None;
            }
            i = i + 1;
        }
        let mut c: u8 = 0;
        while c < self.channels
            invariant
                c <= self.channels,
                forall|k: int| 0 <= k < self.peptides@.len() ==> self.channels <= (#[trigger] self.peptides@[k]).values@.len(),
                forall|k: int| 0 <= k < c ==> #[trigger] channel_total(self@.peptides, k) <= u32::MAX,
            decreases self.channels - c,
        {
            let mut sum: u64 = 0;
            let mut i: usize = 0;
            while i < self.peptides.len()
                invariant
                    c < self.channels,
                    forall|k: int| 0 <= k < self.peptides@.len() ==> self.channels <= (#[trigger] self.peptides@[k]).values@.len(),
                    i <= self.peptides.len(),
                    sum == channel_total(self@.peptides.subrange(0, i as int), c as int),
                    sum <= u32::MAX,
                decreases self.peptides.len() - i,
            {
                proof {
                    let all = self@.peptides;
                    assert(all.subrange(0, i + 1).drop_last() == all.subrange(0, i as int));
                    assert(self.peptides@[i as int]@ == all[i as int]);
                }
                sum = sum + self.peptides[i].values[c as usize] as u64;
                i = i + 1;
                if sum > 4294967295 {
                    proof {
                        lemma_channel_total_prefix(self@.peptides, i as int, c as int);
                    }
                    return None;
                }
            }
            proof {
                assert(self@.peptides.subrange(0, i as int) == self@.peptides);
            }
            c = c + 1;
        }
        Some(self.total())
    }
}

/// The sums of a channel over prefixes never exceed the whole sum.
proof fn lemma_channel_total_prefix(peps: Seq<PeptideV>, k: int, c: int)
    requires
        0 <= k <= peps.len(),
    ensures
        channel_total(peps.subrange(0, k), c) <= channel_total(peps, c),
    decreases peps.len(),
{
    if k < peps.len() {
        assert(peps.drop_last() == peps.subrange(0, peps.len() - 1));
        assert(peps.drop_last().subrange(0, k) == peps.subrange(0, k));
        lemma_channel_total_prefix(peps.drop_last(), k, c);
    } else {
        assert(peps.subrange(0, k) == peps);
    }
}

impl Peptide {
    /// Return whether the peptide has two tryptic ends
    pub fn tryptic(&self) -> (r: bool)
        ensures
            r == is_tryptic(self.sequence@),
    {
        let cs = chars_of(self.sequence.as_str());
        let n = cs.len();
        if n == 0 {
            return false;
        }
        let first = cs[0];
        let front = first == 'K' || first == 'R' || first == '-';
        let parts = split_chars(&cs, 0, n, '.');
        proof {
            assert(cs@.subrange(0, n as int) == self.sequence@);
        }
        if !front || parts.len() < 2 {
            return false;
        }
        let core = &parts[1];
        assert(core@ == split(self.sequence@, '.')[1]);
        if core.len() == 0 {
            return false;
        }
        let last = core[core.len() - 1];
        last == 'K' || last == 'R' || cs[n - 1] == '-'
    }

    /// Swap channels `a` and `b`, which are 0-indexed into the values
    pub fn swap_channels(&mut self, a: usize, b: usize)
        requires
            a < old(self).values.len(),
            b < old(self).values.len(),
        ensures
            final(self)@ == (PeptideV {
                values: old(self)@.values.update(a as int, old(self)@.values[b as int]).update(
                    b as int,
                    old(self)@.values[a as int],
                ),
                ..old(self)@
            }),
    {
        let x = self.values[a];
        let y = self.values[b];
        self.values.set(a, y);
        self.values.set(b, x);
    }
}

} // verus!
