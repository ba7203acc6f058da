//! A whole report: its proteins, in order, and its channel count.
use vstd::prelude::*;

use crate::filter::{Filter, filtered_dataset};
use crate::protein::{Protein, ProteinV};

verus! {

/// Container for the data read from one report
#[derive(Debug, Clone, Default, PartialEq)]
pub struct Dataset {
    /// Data of each protein in the report
    pub proteins: Vec<Protein>,
    /// Number of channels in the report
    pub channels: u8,
}

/// What a `Dataset` holds, as mathematical values.
pub struct DatasetV {
    pub proteins: Seq<ProteinV>,
    pub channels: u8,
}

pub open spec fn protein_views(v: Seq<Protein>) -> Seq<ProteinV> {
    v.map_values(|p: Protein| p@)
}

impl View for Dataset {
    type V = DatasetV;

    open spec fn view(&self) -> DatasetV {
        DatasetV { proteins: protein_views(self.proteins@), channels: self.channels }
    }
}

/// The accessions of `ps`, in order.
pub open spec fn accessions_of(ps: Seq<ProteinV>) -> Seq<Seq<char>> {
    ps.map_values(|p: ProteinV| p.accession)
}

/// The elements of `s` in the order of their first occurrence, each once.
pub open spec fn first_occurrences(s: Seq<Seq<char>>) -> Seq<Seq<char>>
    decreases s.len(),
{
    if s.len() == 0 {
        s
    } else if s.drop_last().contains(s.last()) {
        first_occurrences(s.drop_last())
    } else {
        first_occurrences(s.drop_last()).push(s.last())
    }
}

pub open spec fn string_views(v: Seq<String>) -> Seq<Seq<char>> {
    v.map_values(|s: String| s@)
}

/// `j` is the last position of `x` in `s`.
pub open spec fn is_last_position(s: Seq<Seq<char>>, x: Seq<char>, j: int) -> bool {
    0 <= j < s.len() && s[j] == x && forall|k: int| j < k < s.len() ==> s[k] != x
}

impl Dataset {
    /// The dataset that `filter` keeps of this one
    pub fn filter(self, filter: &Filter) -> (r: Self)
        requires
            filter.wf(),
        ensures
            r@ == filtered_dataset(filter@, self@),
    {
        filter.filter_dataset(self)
    }

    /// Return the distinct accessions of the dataset, in the order in which
    /// they first appear
    pub fn accessions(&self) -> (r: Vec<String>)
        ensures
            string_views(r@) == first_occurrences(accessions_of(self@.proteins)),
    {
        let ghost all = accessions_of(self@.proteins);
        let mut out: Vec<String> = Vec::new();
        let mut i: usize = 0;
        while i < self.proteins.len()
            invariant
                i <= self.proteins.len(),
                all == accessions_of(self@.proteins),
                all.len() == self.proteins.len(),
                string_views(out@) == first_occurrences(all.subrange(0, i as int)),
            decreases self.proteins.len() - i,
        {
            let ghost pre = all.subrange(0, i as int);
            assert(all.subrange(0, i + 1).drop_last() == pre);
            assert(all[i as int] == self.proteins@[i as int].accession@);
            let mut seen = false;
            let mut j: usize = 0;
            while j < i
                invariant
                    j <= i < self.proteins.len(),
                    all == accessions_of(self@.proteins),
                    all.len() == self.proteins.len(),
                    seen == exists|k: int| 0 <= k < j && all[k] == all[i as int],
                decreases i - j,
            {
                assert(all[j as int] == self.proteins@[j as int].accession@);
                if self.proteins[j].accession == self.proteins[i].accession {
                    seen = true;
                }
                j = j + 1;
            }
            assert(seen == pre.contains(all[i as int])) by {
                if seen {
                    let k = choose|k: int| 0 <= k < i && all[k] == all[i as int];
                    assert(pre[k] == all[i as int]);
                }
                if pre.contains(all[i as int]) {
                    let k = choose|k: int| 0 <= k < pre.len() && pre[k] == all[i as int];
                    assert(all[k] == all[i as int]);
                }
            }
            if !seen {
                let ghost before = string_views(out@);
                let a = self.proteins[i].accession.clone();
                out.push(a);
                assert(string_views(out@) =~= before.push(all[i as int]));
            }
            i = i + 1;
        }
        assert(all.subrange(0, i as int) == all);
        out
    }

    /// Return, for each distinct accession in order of first appearance, the
    /// last protein that has it
    pub fn map(&self) -> (r: Vec<(String, &Protein)>)
        ensures
            r@.len() == first_occurrences(accessions_of(self@.proteins)).len(),
            forall|k: int|
                0 <= k < r@.len() ==> (#[trigger] r@[k]).0@ == first_occurrences(
                    accessions_of(self@.proteins),
                )[k] && exists|j: int|
                    is_last_position(accessions_of(self@.proteins), r@[k].0@, j) && *r@[k].1
                        == self.proteins@[j],
    {
        let keys = self.accessions();
        let ghost all = accessions_of(self@.proteins);
        let n = self.proteins.len();
        let mut out: Vec<(String, &Protein)> = Vec::new();
        for key in it: keys.into_iter()
            invariant
                n == self.proteins.len(),
                all == accessions_of(self@.proteins),
                all.len() == n,
                string_views(it.seq()) == first_occurrences(all),
                out@.len() == it.index(),
                forall|t: int|
                    0 <= t < out@.len() ==> (#[trigger] out@[t]).0@ == first_occurrences(all)[t] && exists|j: int|
                        is_last_position(all, out@[t].0@, j) && *out@[t].1 == self.proteins@[j],
        {
            let ghost kv = key@;
            let ghost k = out@.len() as int;
            assert(kv == first_occurrences(all)[k]);
            proof {
                lemma_first_occurrences_members(all, k);
            }
            let mut j = n;
            while j > 0 && self.proteins[j - 1].accession != key
                invariant
                    j <= n == self.proteins.len(),
                    all == accessions_of(self@.proteins),
                    all.len() == n,
                    kv == key@,
                    all.contains(kv),
                    forall|t: int| j <= t < n ==> all[t] != kv,
                decreases j,
            {
                assert(all[j - 1] == self.proteins@[j - 1].accession@);
                j = j - 1;
            }
            proof {
                if j == 0 {
                    let t = choose|t: int| 0 <= t < all.len() && all[t] == kv;
                    assert(all[t] != kv);
                }
            }
            assert(all[j - 1] == self.proteins@[j - 1].accession@);
            let p = &self.proteins[j - 1];
            out.push((key, p));
            assert(is_last_position(all, kv, j - 1));
            assert(out@[k].0@ == kv);
        }
        out
    }
}

/// What `first_occurrences` lists appears in the sequence.
proof fn lemma_first_occurrences_members(s: Seq<Seq<char>>, k: int)
    requires
        0 <= k < first_occurrences(s).len(),
    ensures
        s.contains(first_occurrences(s)[k]),
    decreases s.len(),
{
    let t = s.drop_last();
    if s.len() > 0 {
        if t.contains(s.last()) {
            lemma_first_occurrences_members(t, k);
        } else if k < first_occurrences(t).len() {
            lemma_first_occurrences_members(t, k);
        } else {
            assert(s[s.len() - 1] == s.last());
        }
        if t.contains(first_occurrences(s)[k]) {
            let i = choose|i: int| 0 <= i < t.len() && t[i] == first_occurrences(s)[k];
            assert(s[i] == t[i]);
        }
    }
}

} // verus!
