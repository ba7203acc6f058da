//! Parser of the Census report format: header lines (`H`), protein records
//! (`P`) and the peptide records (`S`) that follow each protein.
//!
//! Fields are tab-separated. The first error ends the parse, with its 1-based
//! line. The sequence coverage is kept as the percent numeral of the record
//! (`45.5%` gives `"45.5"`), not divided by 100; it must be a plain decimal
//! numeral (digits with at most one `.`), so `1e2%` or `-5%` is a
//! `Conversion` error.
use vstd::prelude::*;

use crate::dataset::{Dataset, DatasetV, protein_views};
use crate::protein::{Peptide, PeptideV, Protein, ProteinV};
use crate::text::{
    chars_of, contains_chars, contains_seq, decimal_numeral, is_decimal_numeral, lines_of,
    lines_of_chars, parse_unsigned, parse_unsigned_chars, split, split_chars, string_of,
    strip_percent, strip_percent_end, views,
};

verus! {

/// What went wrong on a line
#[derive(Debug, Clone, Copy, PartialEq, Eq, Structural)]
pub enum ErrorKind {
    /// Invalid beginning of line
    Invalid(char),
    /// A field is not a number of the expected kind
    Conversion,
    /// A line, or the input, ended early
    EOF,
}

/// Error that may occur during parsing of a Census file
#[derive(Debug, Clone, Copy, PartialEq, Eq, Structural)]
pub struct Error {
    /// What went wrong
    pub kind: ErrorKind,
    /// The 1-based line at which it was found
    pub line: usize,
}

impl Error {
    /// What went wrong
    pub fn kind(&self) -> (r: ErrorKind)
        ensures
            r == self.kind,
    {
        self.kind
    }

    /// The 1-based line at which it was found
    pub fn line(&self) -> (r: usize)
        ensures
            r == self.line,
    {
        self.line
    }
}

/// A numeric field: `EOF` where the record has no field `i`, `Conversion`
/// where it is not an unsigned numeral of at most `max`.
pub open spec fn field_number(f: Seq<Seq<char>>, i: int, max: nat) -> Result<nat, ErrorKind> {
    if i >= f.len() {
        Err(ErrorKind::EOF)
    } else {
        match parse_unsigned(f[i], max) {
            Some(v) => Ok(v),
            None => Err(ErrorKind::Conversion),
        }
    }
}

/// A protein record: `P`, accession, spectral count, sequence count, sequence
/// coverage (a decimal numeral, trailing `%` removed), molecular weight, and
/// then any fields of which the last is the description.
pub open spec fn protein_record(line: Seq<char>, channels: u8) -> Result<ProteinV, ErrorKind> {
    let f = split(line, '\t');
    if f[0] != seq!['P'] {
        Err(ErrorKind::Invalid(line[0]))
    } else if f.len() < 2 {
        Err(ErrorKind::EOF)
    } else {
        match field_number(f, 2, u16::MAX as nat) {
            Err(e) => Err(e),
            Ok(spectral) => match field_number(f, 3, u16::MAX as nat) {
                Err(e) => Err(e),
                Ok(sequence) => if f.len() < 5 {
                    Err(ErrorKind::EOF)
                } else if !is_decimal_numeral(strip_percent(f[4])) {
                    Err(ErrorKind::Conversion)
                } else {
                    match field_number(f, 5, u32::MAX as nat) {
                        Err(e) => Err(e),
                        Ok(weight) => if f.len() < 7 {
                            Err(ErrorKind::EOF)
                        } else {
                            Ok(
                                ProteinV {
                                    accession: f[1],
                                    description: f.last(),
                                    spectral_count: spectral as u16,
                                    sequence_count: sequence as u16,
                                    sequence_coverage: strip_percent(f[4]),
                                    molecular_weight: weight as u32,
                                    peptides: Seq::empty(),
                                    channels,
                                },
                            )
                        },
                    }
                },
            },
        }
    }
}

/// The raw intensities of the first `k` channels of a peptide record: field
/// `3 + 2c` is the raw value of channel `c`, and field `4 + 2c`, its
/// normalized value, must be present but is not kept.
pub open spec fn channel_values(f: Seq<Seq<char>>, k: nat) -> Result<Seq<u32>, ErrorKind>
    decreases k,
{
    if k == 0 {
        Ok(Seq::empty())
    } else {
        let c = k - 1;
        match channel_values(f, (k - 1) as nat) {
            Err(e) => Err(e),
            Ok(vs) => match field_number(f, 3 + 2 * c, u32::MAX as nat) {
                Err(e) => Err(e),
                Ok(v) => if 4 + 2 * c >= f.len() {
                    Err(ErrorKind::EOF)
                } else {
                    Ok(vs.push(v as u32))
                },
            },
        }
    }
}

/// A peptide record: `S`, the unique flag (at most one character, `U` for
/// unique), the sequence, and a raw and a normalized value per channel.
pub open spec fn peptide_record(line: Seq<char>, channels: u8) -> Result<PeptideV, ErrorKind> {
    let f = split(line, '\t');
    if f[0] != seq!['S'] {
        Err(ErrorKind::Invalid(line[0]))
    } else if f.len() < 2 {
        Err(ErrorKind::EOF)
    } else if f[1].len() > 1 {
        Err(ErrorKind::Conversion)
    } else if f.len() < 3 {
        Err(ErrorKind::EOF)
    } else {
        match channel_values(f, channels as nat) {
            Err(e) => Err(e),
            Ok(vs) => Ok(
                PeptideV { sequence: f[2], values: vs, unique: f[1] == seq!['U'], scan: 0 },
            ),
        }
    }
}

/// The number of occurrences of `m/z_` in `s`.
pub open spec fn count_mz(s: Seq<char>) -> nat
    decreases s.len(),
{
    if s.len() < 4 {
        0
    } else {
        count_mz(s.drop_last()) + if s.subrange(s.len() - 4, s.len() as int) == seq![
            'm',
            '/',
            'z',
            '_',
        ] {
            1nat
        } else {
            0nat
        }
    }
}

/// The channel count that a header line gives, where it mentions `m/z`: each
/// channel has a raw and a normalized column, both marked `m/z_`.
pub open spec fn header_channels(line: Seq<char>) -> u8 {
    ((count_mz(line) / 2) % 256) as u8
}

pub open spec fn mentions_mz(line: Seq<char>) -> bool {
    contains_seq(line, seq!['m', '/', 'z'])
}

/// The state after some lines: the channel count and the proteins so far.
pub type ParseState = (u8, Seq<ProteinV>);

pub open spec fn with_peptide(p: ProteinV, pep: PeptideV) -> ProteinV {
    ProteinV { peptides: p.peptides.push(pep), ..p }
}

/// The effect of line `line`, numbered `n`: header lines come before any
/// protein, and a peptide record belongs to the protein before it.
pub open spec fn step(st: ParseState, line: Seq<char>, n: usize) -> Result<ParseState, Error> {
    let (ch, ps) = st;
    if line.len() == 0 {
        Err(Error { kind: ErrorKind::EOF, line: n })
    } else if line[0] == 'H' {
        if ps.len() > 0 {
            Err(Error { kind: ErrorKind::Invalid('H'), line: n })
        } else if mentions_mz(line) {
            Ok((header_channels(line), ps))
        } else {
            Ok((ch, ps))
        }
    } else if line[0] == 'P' {
        match protein_record(line, ch) {
            Ok(p) => Ok((ch, ps.push(p))),
            Err(k) => Err(Error { kind: k, line: n }),
        }
    } else if line[0] == 'S' && ps.len() > 0 {
        match peptide_record(line, ch) {
            Ok(pep) => Ok((ch, ps.update(ps.len() - 1, with_peptide(ps.last(), pep)))),
            Err(k) => Err(Error { kind: k, line: n }),
        }
    } else {
        Err(Error { kind: ErrorKind::Invalid(line[0]), line: n })
    }
}

/// The state after the first `k` lines, or the first error among them.
pub open spec fn parse_upto(lines: Seq<Seq<char>>, k: nat) -> Result<ParseState, Error>
    decreases k,
{
    if k == 0 {
        Ok((0u8, Seq::empty()))
    } else {
        match parse_upto(lines, (k - 1) as nat) {
            Err(e) => Err(e),
            Ok(st) => step(st, lines[k - 1], k as usize),
        }
    }
}

/// The line just past the last one.
pub open spec fn end_line(n: nat) -> usize {
    if n < usize::MAX {
        (n + 1) as usize
    } else {
        usize::MAX
    }
}

/// The dataset that `lines` describe: input that holds only header lines ends
/// too early.
pub open spec fn parse_lines(lines: Seq<Seq<char>>) -> Result<DatasetV, Error> {
    match parse_upto(lines, lines.len()) {
        Err(e) => Err(e),
        Ok((ch, ps)) => if lines.len() > 0 && ps.len() == 0 {
            Err(Error { kind: ErrorKind::EOF, line: end_line(lines.len()) })
        } else {
            Ok(DatasetV { proteins: ps, channels: ch })
        },
    }
}

/// The dataset that a whole report describes.
pub open spec fn census_of(text: Seq<char>) -> Result<DatasetV, Error> {
    parse_lines(lines_of(text))
}

/// Every protein carries the channel count `ch`, and every peptide has one
/// value per channel.
pub open spec fn channels_consistent(ch: u8, ps: Seq<ProteinV>) -> bool {
    forall|i: int|
        0 <= i < ps.len() ==> (#[trigger] ps[i]).channels == ch && forall|j: int|
            0 <= j < ps[i].peptides.len() ==> (#[trigger] ps[i].peptides[j]).values.len() == ch
}

proof fn lemma_channel_values_len(f: Seq<Seq<char>>, k: nat)
    ensures
        channel_values(f, k) matches Ok(vs) ==> vs.len() == k,
    decreases k,
{
    if k > 0 {
        lemma_channel_values_len(f, (k - 1) as nat);
    }
}

proof fn lemma_parse_upto_consistent(lines: Seq<Seq<char>>, k: nat)
    ensures
        parse_upto(lines, k) matches Ok((ch, ps)) ==> channels_consistent(ch, ps),
    decreases k,
{
    if k > 0 {
        lemma_parse_upto_consistent(lines, (k - 1) as nat);
        if let Ok((ch, ps)) = parse_upto(lines, (k - 1) as nat) {
            let line = lines[k - 1];
            if line.len() > 0 && line[0] == 'S' && ps.len() > 0 {
                if let Ok(pep) = peptide_record(line, ch) {
                    lemma_channel_values_len(split(line, '\t'), ch as nat);
                    let last = ps.len() - 1;
                    let q = with_peptide(ps.last(), pep);
                    let ps2 = ps.update(last, q);
                    assert forall|i: int| 0 <= i < ps2.len() implies (#[trigger] ps2[i]).channels == ch
                        && forall|j: int| 0 <= j < ps2[i].peptides.len() ==> (#[trigger] ps2[i].peptides[j]).values.len() == ch by {
                        if i == last {
                            assert forall|j: int| 0 <= j < q.peptides.len() implies (#[trigger] q.peptides[j]).values.len() == ch by {
                                if j < ps[last].peptides.len() {
                                    assert(q.peptides[j] == ps[last].peptides[j]);
                                }
                            }
                        }
                    }
                }
            } else if line.len() > 0 && line[0] == 'P' {
                if let Ok(p) = protein_record(line, ch) {
                    let ps2 = ps.push(p);
                    assert forall|i: int| 0 <= i < ps2.len() implies (#[trigger] ps2[i]).channels == ch
                        && forall|j: int| 0 <= j < ps2[i].peptides.len() ==> (#[trigger] ps2[i].peptides[j]).values.len() == ch by {
                        if i < ps.len() {
                            assert(ps2[i] == ps[i]);
                        }
                    }
                }
            }
        }
    }
}

/// In a parsed dataset every protein carries the dataset's channel count and
/// every peptide has exactly one value per channel.
pub proof fn lemma_parsed_channel_count(text: Seq<char>)
    ensures
        census_of(text) matches Ok(d) ==> channels_consistent(d.channels, d.proteins),
{
    let lines = lines_of(text);
    lemma_parse_upto_consistent(lines, lines.len());
}

/// Reads a numeric field of a record.
fn field_number_exec(f: &Vec<Vec<char>>, i: usize, max: u64) -> (r: Result<u64, ErrorKind>)
    ensures
        match field_number(views(f@), i as int, max as nat) {
            Ok(v) => r == Ok::<u64, ErrorKind>(v as u64),
            Err(e) => r == Err::<u64, ErrorKind>(e),
        },
{
    if i >= f.len() {
        return Err(ErrorKind::EOF);
    }
    let field = &f[i];
    assert(views(f@)[i as int] == field@);
    assert(field@.subrange(0, field@.len() as int) == field@);
    match parse_unsigned_chars(field, 0, field.len(), max) {
        Some(v) => Ok(v),
        None => Err(ErrorKind::Conversion),
    }
}

/// Reads a protein record.
fn protein_record_exec(line: &Vec<char>, channels: u8) -> (r: Result<Protein, ErrorKind>)
    requires
        line.len() > 0,
    ensures
        match protein_record(line@, channels) {
            Ok(p) => r matches Ok(q) && q@ == p,
            Err(e) => r == Err::<Protein, ErrorKind>(e),
        },
{
    let f = split_chars(line, 0, line.len(), '\t');
    let ghost fv = views(f@);
    assert(line@.subrange(0, line@.len() as int) == line@);
    assert(fv[0] == f@[0]@);
    if !(f[0].len() == 1 && f[0][0] == 'P') {
        assert(fv[0] != seq!['P']) by {
            if fv[0] == seq!['P'] {
                assert(fv[0][0] == 'P');
            }
        }
        return Err(ErrorKind::Invalid(line[0]));
    }
    assert(fv[0] =~= seq!['P']);
    if f.len() < 2 {
        return Err(ErrorKind::EOF);
    }
    let spectral = match field_number_exec(&f, 2, 65535) {
        Ok(v) => v,
        Err(e) => return Err(e),
    };
    let sequence = match field_number_exec(&f, 3, 65535) {
        Ok(v) => v,
        Err(e) => return Err(e),
    };
    if f.len() < 5 {
        return Err(ErrorKind::EOF);
    }
    let cov = &f[4];
    assert(fv[4] == cov@);
    let cov_end = strip_percent_end(cov, 0, cov.len());
    assert(cov@.subrange(0, cov@.len() as int) == cov@);
    assert(cov@.subrange(0, cov_end as int).subrange(0, cov_end as int) == cov@.subrange(0, cov_end as int));
    if decimal_numeral(cov, 0, cov_end).is_none() {
        return Err(ErrorKind::Conversion);
    }
    let weight = match field_number_exec(&f, 5, 4294967295) {
        Ok(v) => v,
        Err(e) => return Err(e),
    };
    if f.len() < 7 {
        return Err(ErrorKind::EOF);
    }
    let last = f.len() - 1;
    assert(fv[1] == f@[1]@);
    assert(fv.last() == f@[last as int]@);
    let accession = string_of(&f[1], 0, f[1].len());
    let description = string_of(&f[last], 0, f[last].len());
    let coverage = string_of(cov, 0, cov_end);
    assert(f@[1]@.subrange(0, f@[1]@.len() as int) == f@[1]@);
    assert(f@[last as int]@.subrange(0, f@[last as int]@.len() as int) == f@[last as int]@);
    let p = Protein {
        accession,
        description,
        spectral_count: spectral as u16,
        sequence_count: sequence as u16,
        sequence_coverage: coverage,
        molecular_weight: weight as u32,
        peptides: Vec::new(),
        channels,
    };
    assert(p@.peptides =~= Seq::<PeptideV>::empty());
    Ok(p)
}

/// Reads a peptide record.
fn peptide_record_exec(line: &Vec<char>, channels: u8) -> (r: Result<Peptide, ErrorKind>)
    requires
        line.len() > 0,
    ensures
        match peptide_record(line@, channels) {
            Ok(p) => r matches Ok(q) && q@ == p,
            Err(e) => r == Err::<Peptide, ErrorKind>(e),
        },
{
    let f = split_chars(line, 0, line.len(), '\t');
    let ghost fv = views(f@);
    assert(line@.subrange(0, line@.len() as int) == line@);
    assert(fv[0] == f@[0]@);
    if !(f[0].len() == 1 && f[0][0] == 'S') {
        assert(fv[0] != seq!['S']) by {
            if fv[0] == seq!['S'] {
                assert(fv[0][0] == 'S');
            }
        }
        return Err(ErrorKind::Invalid(line[0]));
    }
    assert(fv[0] =~= seq!['S']);
    if f.len() < 2 {
        return Err(ErrorKind::EOF);
    }
    assert(fv[1] == f@[1]@);
    if f[1].len() > 1 {
        return Err(ErrorKind::Conversion);
    }
    if f.len() < 3 {
        return Err(ErrorKind::EOF);
    }
    let unique = f[1].len() == 1 && f[1][0] == 'U';
    assert(unique == (fv[1] == seq!['U'])) by {
        if fv[1] == seq!['U'] {
            assert(fv[1][0] == 'U');
        }
        if unique {
            assert(fv[1] =~= seq!['U']);
        }
    }
    let mut values: Vec<u32> = Vec::new();
    let mut c: u8 = 0;
    while c < channels
        invariant
            c <= channels,
            fv == views(f@),
            fv == split(line@, '\t'),
            line@.len() > 0,
            fv[0] == seq!['S'],
            fv.len() >= 3,
            fv[1].len() <= 1,
            channel_values(fv, c as nat) == Ok::<Seq<u32>, ErrorKind>(values@),
        decreases channels - c,
    {
        let i = 3 + 2 * (c as usize);
        let v = match field_number_exec(&f, i, 4294967295) {
            Ok(v) => v,
            Err(e) => {
                assert(channel_values(fv, (c + 1) as nat) == Err::<Seq<u32>, ErrorKind>(e));
                proof {
                    lemma_channel_values_err(fv, (c + 1) as nat, channels as nat);
                }
                return Err(e);
            },
        };
        if i + 1 >= f.len() {
            assert(channel_values(fv, (c + 1) as nat) == Err::<Seq<u32>, ErrorKind>(ErrorKind::EOF));
            proof {
                lemma_channel_values_err(fv, (c + 1) as nat, channels as nat);
            }
            return Err(ErrorKind::EOF);
        }
        values.push(v as u32);
        c = c + 1;
    }
    assert(fv[2] == f@[2]@);
    assert(f@[2]@.subrange(0, f@[2]@.len() as int) == f@[2]@);
    let sequence = string_of(&f[2], 0, f[2].len());
    Ok(Peptide { sequence, values, unique, scan: 0 })
}

/// An error among the first channels is the error of the whole record.
proof fn lemma_channel_values_err(f: Seq<Seq<char>>, k: nat, n: nat)
    requires
        k <= n,
        channel_values(f, k) is Err,
    ensures
        channel_values(f, n) == channel_values(f, k),
    decreases n - k,
{
    if k < n {
        lemma_channel_values_err(f, k, (n - 1) as nat);
    }
}

/// The number of occurrences of `m/z_` in `line`.
fn count_mz_exec(line: &Vec<char>) -> (r: usize)
    ensures
        r as nat == count_mz(line@),
{
    let mut count: usize = 0;
    let mut i: usize = 0;
    while i < line.len()
        invariant
            i <= line.len(),
            count as nat == count_mz(line@.subrange(0, i as int)),
            count <= i,
        decreases line.len() - i,
    {
        let ghost next = line@.subrange(0, i + 1);
        assert(next.drop_last() == line@.subrange(0, i as int));
        if i >= 3 && line[i - 3] == 'm' && line[i - 2] == '/' && line[i - 1] == 'z' && line[i] == '_' {
            assert(next.subrange(next.len() - 4, next.len() as int) =~= seq!['m', '/', 'z', '_']);
            count = count + 1;
        } else if i >= 3 {
            assert(next.subrange(next.len() - 4, next.len() as int) != seq!['m', '/', 'z', '_']) by {
                let t = next.subrange(next.len() - 4, next.len() as int);
                if t == seq!['m', '/', 'z', '_'] {
                    assert(t[0] == line@[i - 3] && t[1] == line@[i - 2] && t[2] == line@[i - 1]
                        && t[3] == line@[i as int]);
                }
            }
        }
        i = i + 1;
    }
    assert(line@.subrange(0, i as int) == line@);
    count
}

/// An error after some lines is the error of all that follow.
proof fn lemma_parse_err(lines: Seq<Seq<char>>, k: nat, n: nat)
    requires
        k <= n,
        parse_upto(lines, k) is Err,
    ensures
        parse_upto(lines, n) == parse_upto(lines, k),
    decreases n - k,
{
    if k < n {
        lemma_parse_err(lines, k, (n - 1) as nat);
    }
}

/// An error after some lines is the error of the whole report.
proof fn lemma_parse_lines_err(lines: Seq<Seq<char>>, k: nat)
    requires
        k <= lines.len(),
        parse_upto(lines, k) is Err,
    ensures
        parse_lines(lines) == (match parse_upto(lines, k) {
            Err(e) => Err::<DatasetV, Error>(e),
            Ok(_) => Err::<DatasetV, Error>(Error { kind: ErrorKind::EOF, line: 0 }),
        }),
{
    lemma_parse_err(lines, k, lines.len());
}

/// A line that is a peptide record by its first character.
pub open spec fn is_peptide_line(line: Seq<char>) -> bool {
    line.len() > 0 && line[0] == 'S'
}

/// Reads a Census report line by line.
pub struct Parser {
    lines: Vec<Vec<char>>,
    /// Number of channels to parse
    channels: u8,
    /// Index of the next line
    next: usize,
}

impl Parser {
    /// The lines of the report.
    pub closed spec fn lines_view(&self) -> Seq<Seq<char>> {
        views(self.lines@)
    }

    /// Nothing has been read yet.
    pub closed spec fn fresh(&self) -> bool {
        self.next == 0 && self.channels == 0
    }

    /// Create a new parser operating on input data
    pub fn new(input: &str) -> (r: Parser)
        ensures
            r.lines_view() == lines_of(input@),
            r.fresh(),
    {
        let cs = chars_of(input);
        Parser { lines: lines_of_chars(&cs), channels: 0, next: 0 }
    }

    /// Convenience function for creating an error at the current line
    fn err(&self, kind: ErrorKind) -> (r: Error)
        requires
            self.next < self.lines.len(),
        ensures
            r == (Error { kind, line: (self.next + 1) as usize }),
    {
        Error { kind, line: self.next + 1 }
    }

    /// The next line, if any
    fn peek(&self) -> (r: Option<&Vec<char>>)
        ensures
            r is Some == (self.next < self.lines.len()),
            r matches Some(l) ==> l@ == self.lines_view()[self.next as int],
    {
        if self.next < self.lines.len() {
            Some(&self.lines[self.next])
        } else {
            None
        }
    }

    /// Move past the next line, if any
    fn next(&mut self) -> (r: bool)
        requires
            old(self).next <= old(self).lines.len(),
        ensures
            r == (old(self).next < old(self).lines.len()),
            final(self).lines == old(self).lines,
            final(self).channels == old(self).channels,
            final(self).next == if r { old(self).next + 1 } else { old(self).next as int },
    {
        if self.next < self.lines.len() {
            self.next = self.next + 1;
            true
        } else {
            false
        }
    }

    /// Read consecutive header lines, the last that mentions `m/z` setting
    /// the channel count; `None` where the input ends among them.
    fn parse_headers(&mut self) -> (r: Option<()>)
        requires
            old(self).next < old(self).lines.len(),
            parse_upto(old(self).lines_view(), old(self).next as nat) == Ok::<ParseState, Error>(
                (old(self).channels, Seq::empty()),
            ),
        ensures
            final(self).lines == old(self).lines,
            old(self).next <= final(self).next <= final(self).lines.len(),
            parse_upto(final(self).lines_view(), final(self).next as nat) == Ok::<ParseState, Error>(
                (final(self).channels, Seq::empty()),
            ),
            r is None == (final(self).next == final(self).lines.len()),
            r is Some ==> final(self).lines_view()[final(self).next as int].len() == 0
                || final(self).lines_view()[final(self).next as int][0] != 'H',
    {
        let ghost lv = self.lines_view();
        let mz: Vec<char> = vec!['m', '/', 'z'];
        assert(mz@ =~= seq!['m', '/', 'z']);
        while self.next < self.lines.len()
            invariant
                lv == self.lines_view(),
                self.lines == old(self).lines,
                old(self).next <= self.next,
                mz@ == seq!['m', '/', 'z'],
                self.next <= self.lines.len(),
                parse_upto(lv, self.next as nat) == Ok::<ParseState, Error>((self.channels, Seq::empty())),
            decreases self.lines.len() - self.next,
        {
            let k = self.next;
            let line = &self.lines[k];
            assert(lv[k as int] == line@);
            if line.len() > 0 && line[0] == 'H' {
                let mentions = contains_chars(line, &mz);
                let ch = if mentions {
                    let n = count_mz_exec(line);
                    ((n / 2) % 256) as u8
                } else {
                    self.channels
                };
                self.next();
                self.channels = ch;
            } else {
                return Some(());
            }
        }
        None
    }

    /// Read the peptide record on the next line
    fn parse_peptide(&mut self) -> (r: Result<Peptide, Error>)
        requires
            old(self).next < old(self).lines.len(),
            is_peptide_line(old(self).lines_view()[old(self).next as int]),
        ensures
            final(self).lines == old(self).lines,
            final(self).channels == old(self).channels,
            final(self).next == old(self).next + 1,
            match peptide_record(old(self).lines_view()[old(self).next as int], old(self).channels) {
                Ok(p) => r matches Ok(q) && q@ == p,
                Err(k) => r == Err::<Peptide, Error>(Error { kind: k, line: (old(self).next + 1) as usize }),
            },
    {
        let k = self.next;
        assert(self.lines_view()[k as int] == self.lines@[k as int]@);
        let res = peptide_record_exec(&self.lines[k], self.channels);
        let e = match res {
            Ok(p) => {
                self.next();
                return Ok(p);
            },
            Err(kind) => self.err(kind),
        };
        self.next();
        Err(e)
    }

    /// Read the protein record on the next line and the peptide records that
    /// follow it
    fn parse_protein(&mut self) -> (r: Result<Protein, Error>)
        requires
            old(self).next < old(self).lines.len(),
            old(self).lines_view()[old(self).next as int].len() > 0,
            old(self).lines_view()[old(self).next as int][0] == 'P',
            parse_upto(old(self).lines_view(), old(self).next as nat) matches Ok(st) && st.0 == old(self).channels,
        ensures
            final(self).lines == old(self).lines,
            final(self).channels == old(self).channels,
            old(self).next < final(self).next <= final(self).lines.len(),
            match r {
                Ok(p) => parse_upto(old(self).lines_view(), final(self).next as nat) == Ok::<ParseState, Error>(
                    (old(self).channels, parse_upto(old(self).lines_view(), old(self).next as nat)->Ok_0.1.push(p@)),
                ) && (final(self).next == final(self).lines.len()
                    || !is_peptide_line(final(self).lines_view()[final(self).next as int])),
                Err(e) => parse_lines(old(self).lines_view()) == Err::<DatasetV, Error>(e),
            },
    {
        let ghost lv = self.lines_view();
        let ghost ps = parse_upto(lv, self.next as nat)->Ok_0.1;
        let k = self.next;
        assert(lv[k as int] == self.lines@[k as int]@);
        let mut protein = match protein_record_exec(&self.lines[k], self.channels) {
            Ok(p) => p,
            Err(kind) => {
                let e = self.err(kind);
                self.next();
                proof {
                    lemma_parse_lines_err(lv, (k + 1) as nat);
                }
                return Err(e);
            },
        };
        self.next();
        while self.next < self.lines.len() && self.lines[self.next].len() > 0
            && self.lines[self.next][0] == 'S'
            invariant
                lv == self.lines_view(),
                self.lines == old(self).lines,
                self.channels == old(self).channels,
                k == old(self).next,
                lv == old(self).lines_view(),
                k < self.next <= self.lines.len(),
                parse_upto(lv, self.next as nat) == Ok::<ParseState, Error>(
                    (self.channels, ps.push(protein@)),
                ),
            decreases self.lines.len() - self.next,
        {
            assert(lv[self.next as int] == self.lines@[self.next as int]@);
            let ghost before = protein@;
            let ghost at = self.next;
            match self.parse_peptide() {
                Ok(pep) => {
                    protein.peptides.push(pep);
                    assert(protein@.peptides =~= before.peptides.push(pep@));
                    assert(protein@ == with_peptide(before, pep@));
                    assert(ps.push(before).update(ps.len() as int, with_peptide(before, pep@))
                        =~= ps.push(protein@));
                },
                Err(e) => {
                    proof {
                        lemma_parse_lines_err(lv, (at + 1) as nat);
                    }
                    return Err(e);
                },
            }
        }
        proof {
            if self.next < self.lines.len() {
                assert(lv[self.next as int] == self.lines@[self.next as int]@);
            }
        }
        Ok(protein)
    }

    /// Read the whole report into a `Dataset`
    pub fn parse(self) -> (r: Result<Dataset, Error>)
        requires
            self.fresh(),
        ensures
            match parse_lines(self.lines_view()) {
                Ok(d) => r matches Ok(x) && x@ == d,
                Err(e) => r == Err::<Dataset, Error>(e),
            },
    {
        let ghost lv = self.lines_view();
        let mut p = self;
        let mut data: Vec<Protein> = Vec::new();
        assert(protein_views(data@) =~= Seq::<ProteinV>::empty());
        loop
            invariant
                lv == p.lines_view(),
                lv == self.lines_view(),
                p.next <= p.lines.len(),
                parse_upto(lv, p.next as nat) == Ok::<ParseState, Error>(
                    (p.channels, protein_views(data@)),
                ),
                data.len() > 0 ==> p.next == p.lines.len() || !is_peptide_line(lv[p.next as int]),
                data.len() == 0 && p.next > 0 ==> p.next < p.lines.len(),
            ensures
                p.next == p.lines.len(),
                parse_upto(lv, p.next as nat) == Ok::<ParseState, Error>(
                    (p.channels, protein_views(data@)),
                ),
                data.len() == 0 ==> p.next == 0,
            decreases p.lines.len() - p.next,
        {
            let init = match p.peek() {
                None => break,
                Some(line) => {
                    if line.len() == 0 {
                        let e = p.err(ErrorKind::EOF);
                        proof {
                            lemma_parse_lines_err(lv, (p.next + 1) as nat);
                        }
                        return Err(e);
                    }
                    line[0]
                },
            };
            let ghost at = p.next;
            if init == 'H' {
                if data.len() > 0 {
                    let e = p.err(ErrorKind::Invalid('H'));
                    proof {
                        lemma_parse_lines_err(lv, (p.next + 1) as nat);
                    }
                    return Err(e);
                }
                assert(protein_views(data@) =~= Seq::<ProteinV>::empty());
                match p.parse_headers() {
                    Some(()) => {},
                    None => {
                        let n = p.lines.len();
                        let line = if n < usize::MAX {
                            n + 1
                        } else {
                            n
                        };
                        return Err(Error { kind: ErrorKind::EOF, line });
                    },
                }
            } else if init == 'P' {
                let ghost before = protein_views(data@);
                match p.parse_protein() {
                    Ok(prot) => {
                        data.push(prot);
                        assert(protein_views(data@) =~= before.push(prot@));
                    },
                    Err(e) => return Err(e),
                }
            } else {
                let e = p.err(ErrorKind::Invalid(init));
                proof {
                    lemma_parse_lines_err(lv, (p.next + 1) as nat);
                }
                return Err(e);
            }
        }
        Ok(Dataset { proteins: data, channels: p.channels })
    }
}

/// Parse a string holding a complete Census report into a `Dataset`
pub fn read_census(input: &str) -> (r: Result<Dataset, Error>)
    ensures
        match census_of(input@) {
            Ok(d) => r matches Ok(x) && x@ == d,
            Err(e) => r == Err::<Dataset, Error>(e),
        },
        r matches Ok(d) ==> channels_consistent(d.channels, d@.proteins),
{
    proof {
        lemma_parsed_channel_count(input@);
    }
    Parser::new(input).parse()
}

} // verus!
