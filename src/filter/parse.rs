//! Reader of the rule language: blocks introduced by `protein` or `peptide`,
//! each holding `key = value` rules and bare flags, separated by whitespace.
//!
//! ```text
//! protein:
//!     spectral_counts = 10
//! peptide:
//!     sequence_exclude = C
//!     channel_cv = 1, 2, 6 0.05
//!     tryptic
//! ```
use vstd::prelude::*;

use super::{Filter, FilterV, PeptideFilter, PeptideFilterV, ProteinFilter};
use crate::text::{
    all_digits, chars_of, decimal_numeral, digits_value, fraction_digits, is_decimal_numeral,
    is_digit, is_whitespace, is_ws, parse_unsigned, parse_unsigned_chars, string_of,
    unsigned_digits, whole_digits,
};
use crate::util::{Decimal, MAX_SCALE, decimal_ceil};

verus! {

/// Error met while reading rules
#[derive(Debug, Clone, PartialEq)]
pub enum RuleError {
    /// A word that names no rule
    Command(String),
    /// A token that was expected and is missing
    Expected(String),
    /// A value that is not a number of the expected kind
    Conversion,
}

/// What a `RuleError` holds, as mathematical values.
pub enum RuleErrorV {
    Command(Seq<char>),
    Expected(Seq<char>),
    Conversion,
}

impl View for RuleError {
    type V = RuleErrorV;

    open spec fn view(&self) -> RuleErrorV {
        match self {
            RuleError::Command(s) => RuleErrorV::Command(s@),
            RuleError::Expected(s) => RuleErrorV::Expected(s@),
            RuleError::Conversion => RuleErrorV::Conversion,
        }
    }
}

/// The first position at or after `i` that holds no whitespace.
pub open spec fn skip_ws(s: Seq<char>, i: int) -> int
    decreases s.len() - i,
{
    if 0 <= i < s.len() && is_ws(s[i]) {
        skip_ws(s, i + 1)
    } else {
        i
    }
}

/// The end of the word (run of non-whitespace) that starts at `i`.
pub open spec fn word_end(s: Seq<char>, i: int) -> int
    decreases s.len() - i,
{
    if 0 <= i < s.len() && !is_ws(s[i]) {
        word_end(s, i + 1)
    } else {
        i
    }
}

/// The end of the run of ASCII digits that starts at `i`.
pub open spec fn digits_end(s: Seq<char>, i: int) -> int
    decreases s.len() - i,
{
    if 0 <= i < s.len() && is_digit(s[i]) {
        digits_end(s, i + 1)
    } else {
        i
    }
}

/// The end of the run of `c` that starts at `i`.
pub open spec fn skip_char(s: Seq<char>, i: int, c: char) -> int
    decreases s.len() - i,
{
    if 0 <= i < s.len() && s[i] == c {
        skip_char(s, i + 1, c)
    } else {
        i
    }
}

/// `w` stands in `s` at position `i`.
pub open spec fn starts_at(s: Seq<char>, i: int, w: Seq<char>) -> bool {
    0 <= i && i + w.len() <= s.len() && s.subrange(i, i + w.len()) == w
}

/// Where the value of a `key = value` rule starts, the key ending at `e`:
/// whitespace, one or more `=`, whitespace.
pub open spec fn value_start(s: Seq<char>, e: int) -> Option<int> {
    let j = skip_ws(s, e);
    if 0 <= j < s.len() && s[j] == '=' {
        Some(skip_ws(s, skip_char(s, j, '=')))
    } else {
        None
    }
}

/// A decimal numeral as an exact `Decimal`: its digits, without the `.`, make
/// the units and the digits after the `.` the scale, which must fit. Cutoffs
/// are plain decimals; signs other than `+` and exponents are not read.
pub open spec fn parse_decimal(t: Seq<char>) -> Option<Decimal> {
    let units = digits_value(whole_digits(t) + fraction_digits(t));
    if is_decimal_numeral(t) && fraction_digits(t).len() <= MAX_SCALE && units <= u64::MAX {
        Some(Decimal { units: units as u64, scale: fraction_digits(t).len() as u8 })
    } else {
        None
    }
}

/// An intensity cutoff: a decimal numeral, rounded up (intensities are
/// integers, so `x >= c` exactly when `x >= ceil(c)`), that fits a `u32`.
pub open spec fn parse_intensity(t: Seq<char>) -> Option<u32> {
    match parse_decimal(t) {
        Some(d) => if d.ceil() <= u32::MAX {
            Some(d.ceil() as u32)
        } else {
            None
        },
        None => None,
    }
}

pub open spec fn parse_channel(t: Seq<char>) -> Option<usize> {
    match parse_unsigned(t, usize::MAX as nat) {
        Some(v) => Some(v as usize),
        None => None,
    }
}

/// The comma-separated channel list that starts at `i`, and where its last
/// entry ends. Commas may repeat and whitespace may surround each entry.
pub open spec fn channel_list(s: Seq<char>, i: int) -> Result<(Seq<usize>, int), RuleErrorV>
    decreases s.len() - i,
    via channel_list_decreases
{
    let p = skip_ws(s, i);
    let de = digits_end(s, p);
    let r = skip_ws(s, de);
    if 0 <= i <= p <= de <= r < s.len() && s[r] == ',' {
        match parse_channel(s.subrange(p, de)) {
            None => Err(RuleErrorV::Conversion),
            Some(c) => match channel_list(s, skip_char(s, r, ',')) {
                Err(e) => Err(e),
                Ok((cs, e)) => Ok((seq![c] + cs, e)),
            },
        }
    } else {
        let e = word_end(s, p);
        match parse_channel(s.subrange(p, e)) {
            None => Err(RuleErrorV::Conversion),
            Some(c) => Ok((seq![c], e)),
        }
    }
}

proof fn lemma_skip_char_bounds(s: Seq<char>, i: int, c: char)
    requires
        0 <= i <= s.len(),
    ensures
        i <= skip_char(s, i, c) <= s.len(),
    decreases s.len() - i,
{
    if i < s.len() && s[i] == c {
        lemma_skip_char_bounds(s, i + 1, c);
    }
}

#[via_fn]
proof fn channel_list_decreases(s: Seq<char>, i: int) {
    let p = skip_ws(s, i);
    let de = digits_end(s, p);
    let r = skip_ws(s, de);
    if 0 <= i <= p <= de <= r < s.len() && s[r] == ',' {
        lemma_skip_char_bounds(s, r + 1, ',');
    }
}

/// The protein rule that starts at `i` (after whitespace), and where it ends.
pub open spec fn protein_rule(s: Seq<char>, i: int) -> Result<(ProteinFilter, int), RuleErrorV> {
    let a = skip_ws(s, i);
    let b = word_end(s, a);
    let cmd = s.subrange(a, b);
    if cmd == "spectral_counts"@ || cmd == "sequence_counts"@ {
        match value_start(s, b) {
            None => Err(RuleErrorV::Expected("="@)),
            Some(v) => {
                let e = word_end(s, v);
                match parse_unsigned(s.subrange(v, e), u16::MAX as nat) {
                    None => Err(RuleErrorV::Conversion),
                    Some(n) => Ok(
                        (
                            if cmd == "spectral_counts"@ {
                                ProteinFilter::SpectralCounts(n as u16)
                            } else {
                                ProteinFilter::SequenceCounts(n as u16)
                            },
                            e,
                        ),
                    ),
                }
            },
        }
    } else {
        Err(RuleErrorV::Command(cmd))
    }
}

/// The peptide rule that starts at `i` (after whitespace), and where it ends.
pub open spec fn peptide_rule(s: Seq<char>, i: int) -> Result<(PeptideFilterV, int), RuleErrorV> {
    let a = skip_ws(s, i);
    let b = word_end(s, a);
    let cmd = s.subrange(a, b);
    if cmd == "tryptic"@ {
        Ok((PeptideFilterV::Tryptic, b))
    } else if cmd == "unique"@ {
        Ok((PeptideFilterV::Unique, b))
    } else if cmd == "total_intensity"@ || cmd == "channel_intensity"@ || cmd == "channel_cv"@
        || cmd == "sequence_match"@ || cmd == "sequence_exclude"@ {
        match value_start(s, b) {
            None => Err(RuleErrorV::Expected("="@)),
            Some(v) => {
                let e = word_end(s, v);
                if cmd == "total_intensity"@ {
                    match parse_intensity(s.subrange(v, e)) {
                        None => Err(RuleErrorV::Conversion),
                        Some(n) => Ok((PeptideFilterV::TotalIntensity(n), e)),
                    }
                } else if cmd == "channel_intensity"@ {
                    let c = skip_ws(s, e);
                    let e2 = word_end(s, c);
                    match parse_channel(s.subrange(v, e)) {
                        None => Err(RuleErrorV::Conversion),
                        Some(ch) => match parse_intensity(s.subrange(c, e2)) {
                            None => Err(RuleErrorV::Conversion),
                            Some(n) => Ok((PeptideFilterV::ChannelIntensity(ch, n), e2)),
                        },
                    }
                } else if cmd == "channel_cv"@ {
                    match channel_list(s, v) {
                        Err(err) => Err(err),
                        Ok((chs, le)) => {
                            let c = skip_ws(s, le);
                            let e2 = word_end(s, c);
                            match parse_decimal(s.subrange(c, e2)) {
                                None => Err(RuleErrorV::Conversion),
                                Some(d) => Ok((PeptideFilterV::ChannelCV(chs, d), e2)),
                            }
                        },
                    }
                } else if cmd == "sequence_match"@ {
                    Ok((PeptideFilterV::SequenceMatch(s.subrange(v, e)), e))
                } else {
                    Ok((PeptideFilterV::SequenceExclude(s.subrange(v, e)), e))
                }
            },
        }
    } else {
        Err(RuleErrorV::Command(cmd))
    }
}

pub open spec fn with_protein_rule(f: FilterV, r: ProteinFilter) -> FilterV {
    FilterV { protein_filters: f.protein_filters.push(r), ..f }
}

pub open spec fn with_peptide_rule(f: FilterV, r: PeptideFilterV) -> FilterV {
    FilterV { peptide_filters: f.peptide_filters.push(r), ..f }
}

/// The rules of a `protein` block from `i` on, added to `f`, and where the
/// block ends: at the end of the input or at a word starting `peptide`.
pub open spec fn protein_block(s: Seq<char>, i: int, f: FilterV) -> Result<(FilterV, int), RuleErrorV>
    decreases s.len() - i,
{
    let j = skip_ws(s, i);
    if j >= s.len() || starts_at(s, j, "peptide"@) {
        Ok((f, j))
    } else {
        match protein_rule(s, j) {
            Err(e) => Err(e),
            Ok((r, k)) => if i < k <= s.len() {
                protein_block(s, k, with_protein_rule(f, r))
            } else {
                Ok((f, j))
            },
        }
    }
}

/// The rules of a `peptide` block from `i` on, added to `f`, and where the
/// block ends: at the end of the input or at a word starting `protein`.
pub open spec fn peptide_block(s: Seq<char>, i: int, f: FilterV) -> Result<(FilterV, int), RuleErrorV>
    decreases s.len() - i,
{
    let j = skip_ws(s, i);
    if j >= s.len() || starts_at(s, j, "protein"@) {
        Ok((f, j))
    } else {
        match peptide_rule(s, j) {
            Err(e) => Err(e),
            Ok((r, k)) => if i < k <= s.len() {
                peptide_block(s, k, with_peptide_rule(f, r))
            } else {
                Ok((f, j))
            },
        }
    }
}

/// The blocks from `i` on, added to `f`. Whitespace may stand before each
/// block; any other text that starts no block is an unknown command.
pub open spec fn blocks_from(s: Seq<char>, i: int, f: FilterV) -> Result<FilterV, RuleErrorV>
    decreases s.len() - i,
{
    let k = skip_ws(s, i);
    if k >= s.len() {
        Ok(f)
    } else if starts_at(s, k, "protein"@) {
        match protein_block(s, word_end(s, k), f) {
            Err(e) => Err(e),
            Ok((g, j)) => if i < j <= s.len() {
                blocks_from(s, j, g)
            } else {
                Ok(g)
            },
        }
    } else if starts_at(s, k, "peptide"@) {
        match peptide_block(s, word_end(s, k), f) {
            Err(e) => Err(e),
            Ok((g, j)) => if i < j <= s.len() {
                blocks_from(s, j, g)
            } else {
                Ok(g)
            },
        }
    } else {
        Err(RuleErrorV::Command(s.subrange(k, word_end(s, k))))
    }
}

/// The filter that a rule text describes.
pub open spec fn parse_rules(s: Seq<char>) -> Result<FilterV, RuleErrorV> {
    blocks_from(s, 0, FilterV { peptide_filters: Seq::empty(), protein_filters: Seq::empty() })
}

proof fn lemma_skip_ws_bounds(s: Seq<char>, i: int)
    requires
        0 <= i <= s.len(),
    ensures
        i <= skip_ws(s, i) <= s.len(),
    decreases s.len() - i,
{
    if i < s.len() && is_ws(s[i]) {
        lemma_skip_ws_bounds(s, i + 1);
    }
}

proof fn lemma_word_end_bounds(s: Seq<char>, i: int)
    requires
        0 <= i <= s.len(),
    ensures
        i <= word_end(s, i) <= s.len(),
    decreases s.len() - i,
{
    if i < s.len() && !is_ws(s[i]) {
        lemma_word_end_bounds(s, i + 1);
    }
}

proof fn lemma_digits_end_bounds(s: Seq<char>, i: int)
    requires
        0 <= i <= s.len(),
    ensures
        i <= digits_end(s, i) <= s.len(),
    decreases s.len() - i,
{
    if i < s.len() && is_digit(s[i]) {
        lemma_digits_end_bounds(s, i + 1);
    }
}

/// Each channel of a list takes at least one character.
proof fn lemma_channel_list_len(s: Seq<char>, i: int)
    requires
        0 <= i <= s.len(),
    ensures
        channel_list(s, i) matches Ok((v, e)) ==> i <= e <= s.len() && v.len() <= e - i,
    decreases s.len() - i,
{
    let p = skip_ws(s, i);
    lemma_skip_ws_bounds(s, i);
    let de = digits_end(s, p);
    lemma_digits_end_bounds(s, p);
    let r = skip_ws(s, de);
    lemma_skip_ws_bounds(s, de);
    if 0 <= i <= p <= de <= r < s.len() && s[r] == ',' {
        let n = skip_char(s, r, ',');
        lemma_skip_char_bounds(s, r, ',');
        lemma_skip_char_bounds(s, r + 1, ',');
        lemma_channel_list_len(s, n);
        if parse_channel(s.subrange(p, de)) is Some {
            assert(s.subrange(p, de).len() > 0);
        }
    } else {
        let e = word_end(s, p);
        lemma_word_end_bounds(s, p);
        if parse_channel(s.subrange(p, e)) is Some {
            assert(s.subrange(p, e).len() > 0);
        }
    }
}

/// A decimal that reads has a scale that fits.
proof fn lemma_parse_decimal_wf(t: Seq<char>)
    ensures
        parse_decimal(t) matches Some(d) ==> d.wf(),
{
}

/// A peptide rule read from a text of at most `u32::MAX` characters is well
/// formed.
proof fn lemma_peptide_rule_wf(s: Seq<char>, i: int)
    requires
        0 <= i <= s.len(),
        s.len() <= u32::MAX,
    ensures
        peptide_rule(s, i) matches Ok((f, _)) ==> f.wf(),
{
    let a = skip_ws(s, i);
    lemma_skip_ws_bounds(s, i);
    let b = word_end(s, a);
    lemma_word_end_bounds(s, a);
    if let Some(v) = value_start(s, b) {
        lemma_skip_ws_bounds(s, b);
        let j = skip_ws(s, b);
        lemma_skip_char_bounds(s, j, '=');
        lemma_skip_ws_bounds(s, skip_char(s, j, '='));
        lemma_channel_list_len(s, v);
        if let Ok((chs, le)) = channel_list(s, v) {
            lemma_skip_ws_bounds(s, le);
            let c = skip_ws(s, le);
            lemma_parse_decimal_wf(s.subrange(c, word_end(s, c)));
        }
    }
}

proof fn lemma_peptide_block_wf(s: Seq<char>, i: int, f: FilterV)
    requires
        0 <= i <= s.len(),
        s.len() <= u32::MAX,
        f.wf(),
    ensures
        peptide_block(s, i, f) matches Ok((g, _)) ==> g.wf(),
    decreases s.len() - i,
{
    let j = skip_ws(s, i);
    lemma_skip_ws_bounds(s, i);
    if !(j >= s.len() || starts_at(s, j, "protein"@)) {
        if let Ok((r, k)) = peptide_rule(s, j) {
            if i < k <= s.len() {
                lemma_peptide_rule_wf(s, j);
                let g = with_peptide_rule(f, r);
                assert forall|x: int| 0 <= x < g.peptide_filters.len() implies (
                #[trigger] g.peptide_filters[x]).wf() by {
                    if x < f.peptide_filters.len() {
                        assert(g.peptide_filters[x] == f.peptide_filters[x]);
                    }
                }
                lemma_peptide_block_wf(s, k, g);
            }
        }
    }
}

proof fn lemma_protein_block_wf(s: Seq<char>, i: int, f: FilterV)
    requires
        0 <= i <= s.len(),
        f.wf(),
    ensures
        protein_block(s, i, f) matches Ok((g, _)) ==> g.wf(),
    decreases s.len() - i,
{
    let j = skip_ws(s, i);
    if !(j >= s.len() || starts_at(s, j, "peptide"@)) {
        if let Ok((r, k)) = protein_rule(s, j) {
            if i < k <= s.len() {
                lemma_protein_block_wf(s, k, with_protein_rule(f, r));
            }
        }
    }
}

proof fn lemma_blocks_wf(s: Seq<char>, i: int, f: FilterV)
    requires
        0 <= i <= s.len(),
        s.len() <= u32::MAX,
        f.wf(),
    ensures
        blocks_from(s, i, f) matches Ok(g) ==> g.wf(),
    decreases s.len() - i,
{
    let k = skip_ws(s, i);
    lemma_skip_ws_bounds(s, i);
    if k < s.len() && starts_at(s, k, "protein"@) {
        lemma_word_end_bounds(s, k);
        lemma_protein_block_wf(s, word_end(s, k), f);
        if let Ok((g, j)) = protein_block(s, word_end(s, k), f) {
            if i < j <= s.len() {
                lemma_blocks_wf(s, j, g);
            }
        }
    } else if k < s.len() && starts_at(s, k, "peptide"@) {
        lemma_word_end_bounds(s, k);
        lemma_peptide_block_wf(s, word_end(s, k), f);
        if let Ok((g, j)) = peptide_block(s, word_end(s, k), f) {
            if i < j <= s.len() {
                lemma_blocks_wf(s, j, g);
            }
        }
    }
}

/// The filter that a rule text of at most `u32::MAX` characters describes can
/// be applied: its coefficient-of-variation rules are well formed.
pub proof fn lemma_parsed_rules_wf(s: Seq<char>)
    requires
        s.len() <= u32::MAX,
    ensures
        parse_rules(s) matches Ok(g) ==> g.wf(),
{
    lemma_blocks_wf(s, 0, FilterV { peptide_filters: Seq::empty(), protein_filters: Seq::empty() });
}

fn take_whitespace(cs: &Vec<char>, i: usize) -> (r: usize)
    requires
        i <= cs.len(),
    ensures
        r as int == skip_ws(cs@, i as int),
        i <= r <= cs.len(),
{
    let mut j = i;
    while j < cs.len() && is_whitespace(cs[j])
        invariant
            i <= j <= cs.len(),
            skip_ws(cs@, j as int) == skip_ws(cs@, i as int),
        decreases cs.len() - j,
    {
        j = j + 1;
    }
    j
}

fn take_word(cs: &Vec<char>, i: usize) -> (r: usize)
    requires
        i <= cs.len(),
    ensures
        r as int == word_end(cs@, i as int),
        i <= r <= cs.len(),
        i < cs.len() && !is_ws(cs@[i as int]) ==> i < r,
{
    let mut j = i;
    while j < cs.len() && !is_whitespace(cs[j])
        invariant
            i <= j <= cs.len(),
            word_end(cs@, j as int) == word_end(cs@, i as int),
            i < cs.len() && !is_ws(cs@[i as int]) && j == i ==> j < cs.len(),
        decreases cs.len() - j,
    {
        j = j + 1;
    }
    j
}

fn take_digits(cs: &Vec<char>, i: usize) -> (r: usize)
    requires
        i <= cs.len(),
    ensures
        r as int == digits_end(cs@, i as int),
        i <= r <= cs.len(),
{
    let mut j = i;
    while j < cs.len() && '0' <= cs[j] && cs[j] <= '9'
        invariant
            i <= j <= cs.len(),
            digits_end(cs@, j as int) == digits_end(cs@, i as int),
        decreases cs.len() - j,
    {
        j = j + 1;
    }
    j
}

fn take_char(cs: &Vec<char>, i: usize, c: char) -> (r: usize)
    requires
        i <= cs.len(),
    ensures
        r as int == skip_char(cs@, i as int, c),
        i <= r <= cs.len(),
{
    let mut j = i;
    while j < cs.len() && cs[j] == c
        invariant
            i <= j <= cs.len(),
            skip_char(cs@, j as int, c) == skip_char(cs@, i as int, c),
        decreases cs.len() - j,
    {
        j = j + 1;
    }
    j
}

/// Whether `cs[a..b]` is the word `w`.
fn range_is(cs: &Vec<char>, a: usize, b: usize, w: &str) -> (r: bool)
    requires
        a <= b <= cs.len(),
    ensures
        r == (cs@.subrange(a as int, b as int) == w@),
{
    let wc = chars_of(w);
    if b - a != wc.len() {
        return false;
    }
    let mut k: usize = 0;
    while k < wc.len()
        invariant
            a <= b <= cs.len(),
            b - a == wc.len(),
            wc@ == w@,
            k <= wc.len(),
            forall|t: int| 0 <= t < k ==> cs@[a + t] == wc@[t],
        decreases wc.len() - k,
    {
        if cs[a + k] != wc[k] {
            assert(cs@.subrange(a as int, b as int)[k as int] != wc@[k as int]);
            return false;
        }
        k = k + 1;
    }
    assert(cs@.subrange(a as int, b as int) =~= wc@);
    true
}

/// Whether the word `w` stands in `cs` at `i`.
fn starts_at_exec(cs: &Vec<char>, i: usize, w: &str) -> (r: bool)
    requires
        i <= cs.len(),
    ensures
        r == starts_at(cs@, i as int, w@),
{
    let n = chars_of(w).len();
    if n > cs.len() - i {
        return false;
    }
    range_is(cs, i, i + n, w)
}

fn expect(cs: &Vec<char>, e: usize) -> (r: Option<usize>)
    requires
        e <= cs.len(),
    ensures
        match value_start(cs@, e as int) {
            Some(v) => r == Some(v as usize) && e <= v <= cs.len(),
            None => r is None,
        },
{
    let j = take_whitespace(cs, e);
    if j < cs.len() && cs[j] == '=' {
        let k = take_char(cs, j, '=');
        Some(take_whitespace(cs, k))
    } else {
        None
    }
}

fn parse_decimal_exec(cs: &Vec<char>, a: usize, b: usize) -> (r: Option<Decimal>)
    requires
        a <= b <= cs.len(),
    ensures
        r == parse_decimal(cs@.subrange(a as int, b as int)),
{
    let ghost t = cs@.subrange(a as int, b as int);
    let (w, f) = match decimal_numeral(cs, a, b) {
        None => return None,
        Some(x) => x,
    };
    let fs = if f < b {
        f + 1
    } else {
        b
    };
    if b - fs > 19 {
        return None;
    }
    let mut joined: Vec<char> = Vec::new();
    let mut i = w;
    while i < f
        invariant
            w <= i <= f <= b <= cs.len(),
            joined@ == cs@.subrange(w as int, i as int),
        decreases f - i,
    {
        joined.push(cs[i]);
        assert(cs@.subrange(w as int, i + 1) == cs@.subrange(w as int, i as int).push(cs@[i as int]));
        i = i + 1;
    }
    let mut j = fs;
    while j < b
        invariant
            fs <= j <= b <= cs.len(),
            joined@ == cs@.subrange(w as int, f as int) + cs@.subrange(fs as int, j as int),
        decreases b - j,
    {
        joined.push(cs[j]);
        assert(cs@.subrange(fs as int, j + 1) == cs@.subrange(fs as int, j as int).push(cs@[j as int]));
        j = j + 1;
    }
    let ghost digits = whole_digits(t) + fraction_digits(t);
    assert(joined@ == digits);
    assert(joined@.subrange(0, joined@.len() as int) == joined@);
    assert(all_digits(digits)) by {
        assert forall|k: int| 0 <= k < digits.len() implies is_digit(#[trigger] digits[k]) by {
            if k < whole_digits(t).len() {
                assert(digits[k] == whole_digits(t)[k]);
            } else {
                assert(digits[k] == fraction_digits(t)[k - whole_digits(t).len()]);
            }
        }
    }
    assert(digits.len() > 0);
    assert(is_digit(digits[0]));
    assert(unsigned_digits(digits) == digits);
    match parse_unsigned_chars(&joined, 0, joined.len(), 18446744073709551615) {
        None => None,
        Some(units) => Some(Decimal { units, scale: (b - fs) as u8 }),
    }
}

fn parse_intensity_exec(cs: &Vec<char>, a: usize, b: usize) -> (r: Option<u32>)
    requires
        a <= b <= cs.len(),
    ensures
        r == parse_intensity(cs@.subrange(a as int, b as int)),
{
    match parse_decimal_exec(cs, a, b) {
        None => None,
        Some(d) => {
            let c = decimal_ceil(d);
            if c <= 4294967295 {
                Some(c as u32)
            } else {
                None
            }
        },
    }
}

fn parse_channel_exec(cs: &Vec<char>, a: usize, b: usize) -> (r: Option<usize>)
    requires
        a <= b <= cs.len(),
    ensures
        r == parse_channel(cs@.subrange(a as int, b as int)),
{
    match parse_unsigned_chars(cs, a, b, usize::MAX as u64) {
        None => None,
        Some(v) => Some(v as usize),
    }
}

fn channel_list_exec(cs: &Vec<char>, i: usize) -> (r: Result<(Vec<usize>, usize), RuleError>)
    requires
        i <= cs.len(),
    ensures
        match channel_list(cs@, i as int) {
            Ok((v, e)) => r matches Ok((x, y)) && x@ == v && y as int == e && i <= y <= cs.len(),
            Err(e) => r matches Err(x) && x@ == e,
        },
    decreases cs.len() - i,
{
    let p = take_whitespace(cs, i);
    let de = take_digits(cs, p);
    let r = take_whitespace(cs, de);
    if r < cs.len() && cs[r] == ',' {
        let c = match parse_channel_exec(cs, p, de) {
            None => return Err(RuleError::Conversion),
            Some(c) => c,
        };
        let n = take_char(cs, r, ',');
        proof {
            lemma_skip_char_bounds(cs@, r + 1, ',');
        }
        match channel_list_exec(cs, n) {
            Err(e) => Err(e),
            Ok((rest, e)) => {
                let mut v: Vec<usize> = Vec::new();
                v.push(c);
                let mut rest = rest;
                let ghost rv = rest@;
                v.append(&mut rest);
                assert(v@ =~= seq![c] + rv);
                Ok((v, e))
            },
        }
    } else {
        let e = take_word(cs, p);
        match parse_channel_exec(cs, p, e) {
            None => Err(RuleError::Conversion),
            Some(c) => {
                let mut v: Vec<usize> = Vec::new();
                v.push(c);
                assert(v@ =~= seq![c]);
                Ok((v, e))
            },
        }
    }
}

fn expected_eq() -> (r: RuleError)
    ensures
        r@ == RuleErrorV::Expected("="@),
{
    RuleError::Expected(String::from_str("="))
}

/// The protein rule at `i` of `cs`.
fn protein_rule_exec(cs: &Vec<char>, i: usize) -> (r: Result<(ProteinFilter, usize), RuleError>)
    requires
        i <= cs.len(),
    ensures
        match protein_rule(cs@, i as int) {
            Ok((f, e)) => r == Ok::<(ProteinFilter, usize), RuleError>((f, e as usize)) && i <= e <= cs.len()
                && skip_ws(cs@, i as int) < e,
            Err(e) => r matches Err(x) && x@ == e,
        },
{
    let a = take_whitespace(cs, i);
    let b = take_word(cs, a);
    let spectral = range_is(cs, a, b, "spectral_counts");
    let sequence = range_is(cs, a, b, "sequence_counts");
    proof {
        reveal_strlit("spectral_counts");
        reveal_strlit("sequence_counts");
        if spectral || sequence {
            assert(cs@.subrange(a as int, b as int).len() == 15);
        }
    }
    if spectral || sequence {
        let v = match expect(cs, b) {
            None => return Err(expected_eq()),
            Some(v) => v,
        };
        let e = take_word(cs, v);
        match parse_unsigned_chars(cs, v, e, 65535) {
            None => Err(RuleError::Conversion),
            Some(n) => {
                let f = if spectral {
                    ProteinFilter::SpectralCounts(n as u16)
                } else {
                    ProteinFilter::SequenceCounts(n as u16)
                };
                Ok((f, e))
            },
        }
    } else {
        Err(RuleError::Command(string_of(cs, a, b)))
    }
}

/// The peptide rule at `i` of `cs`.
fn peptide_rule_exec(cs: &Vec<char>, i: usize) -> (r: Result<(PeptideFilter, usize), RuleError>)
    requires
        i <= cs.len(),
    ensures
        match peptide_rule(cs@, i as int) {
            Ok((f, e)) => r matches Ok((x, y)) && x@ == f && y as int == e && i <= e <= cs.len()
                && skip_ws(cs@, i as int) < e,
            Err(e) => r matches Err(x) && x@ == e,
        },
{
    let a = take_whitespace(cs, i);
    let b = take_word(cs, a);
    let tryptic = range_is(cs, a, b, "tryptic");
    let unique = range_is(cs, a, b, "unique");
    let total = range_is(cs, a, b, "total_intensity");
    let channel = range_is(cs, a, b, "channel_intensity");
    let cv = range_is(cs, a, b, "channel_cv");
    let matching = range_is(cs, a, b, "sequence_match");
    let exclude = range_is(cs, a, b, "sequence_exclude");
    proof {
        reveal_strlit("tryptic");
        reveal_strlit("unique");
        reveal_strlit("total_intensity");
        reveal_strlit("channel_intensity");
        reveal_strlit("channel_cv");
        reveal_strlit("sequence_match");
        reveal_strlit("sequence_exclude");
        if tryptic || unique || total || channel || cv || matching || exclude {
            assert(cs@.subrange(a as int, b as int).len() > 0);
        }
    }
    if tryptic {
        return Ok((PeptideFilter::Tryptic, b));
    }
    if unique {
        return Ok((PeptideFilter::Unique, b));
    }
    if !(total || channel || cv || matching || exclude) {
        return Err(RuleError::Command(string_of(cs, a, b)));
    }
    let v = match expect(cs, b) {
        None => return Err(expected_eq()),
        Some(v) => v,
    };
    let e = take_word(cs, v);
    if total {
        match parse_intensity_exec(cs, v, e) {
            None => Err(RuleError::Conversion),
            Some(n) => Ok((PeptideFilter::TotalIntensity(n), e)),
        }
    } else if channel {
        let c = take_whitespace(cs, e);
        let e2 = take_word(cs, c);
        match parse_channel_exec(cs, v, e) {
            None => Err(RuleError::Conversion),
            Some(ch) => match parse_intensity_exec(cs, c, e2) {
                None => Err(RuleError::Conversion),
                Some(n) => Ok((PeptideFilter::ChannelIntensity(ch, n), e2)),
            },
        }
    } else if cv {
        match channel_list_exec(cs, v) {
            Err(err) => Err(err),
            Ok((chs, le)) => {
                let c = take_whitespace(cs, le);
                let e2 = take_word(cs, c);
                match parse_decimal_exec(cs, c, e2) {
                    None => Err(RuleError::Conversion),
                    Some(d) => Ok((PeptideFilter::ChannelCV(chs, d), e2)),
                }
            },
        }
    } else if matching {
        Ok((PeptideFilter::SequenceMatch(string_of(cs, v, e)), e))
    } else {
        Ok((PeptideFilter::SequenceExclude(string_of(cs, v, e)), e))
    }
}

fn protein_block_exec(cs: &Vec<char>, i: usize, f: Filter) -> (r: Result<(Filter, usize), RuleError>)
    requires
        i <= cs.len(),
    ensures
        match protein_block(cs@, i as int, f@) {
            Ok((g, e)) => r matches Ok((x, y)) && x@ == g && y as int == e && i <= e <= cs.len(),
            Err(e) => r matches Err(x) && x@ == e,
        },
    decreases cs.len() - i,
{
    let j = take_whitespace(cs, i);
    if j >= cs.len() || starts_at_exec(cs, j, "peptide") {
        return Ok((f, j));
    }
    proof {
        assert(skip_ws(cs@, j as int) == j) by {
            assert(skip_ws(cs@, j as int) == skip_ws(cs@, skip_ws(cs@, i as int)));
            lemma_skip_ws_idempotent(cs@, i as int);
        }
    }
    match protein_rule_exec(cs, j) {
        Err(e) => Err(e),
        Ok((rule, k)) => protein_block_exec(cs, k, f.add_protein_filter(rule)),
    }
}

proof fn lemma_skip_ws_idempotent(s: Seq<char>, i: int)
    requires
        0 <= i <= s.len(),
    ensures
        skip_ws(s, skip_ws(s, i)) == skip_ws(s, i),
    decreases s.len() - i,
{
    if i < s.len() && is_ws(s[i]) {
        lemma_skip_ws_idempotent(s, i + 1);
    }
}

fn peptide_block_exec(cs: &Vec<char>, i: usize, f: Filter) -> (r: Result<(Filter, usize), RuleError>)
    requires
        i <= cs.len(),
    ensures
        match peptide_block(cs@, i as int, f@) {
            Ok((g, e)) => r matches Ok((x, y)) && x@ == g && y as int == e && i <= e <= cs.len(),
            Err(e) => r matches Err(x) && x@ == e,
        },
    decreases cs.len() - i,
{
    let j = take_whitespace(cs, i);
    if j >= cs.len() || starts_at_exec(cs, j, "protein") {
        return Ok((f, j));
    }
    proof {
        lemma_skip_ws_idempotent(cs@, i as int);
    }
    match peptide_rule_exec(cs, j) {
        Err(e) => Err(e),
        Ok((rule, k)) => peptide_block_exec(cs, k, f.add_peptide_filter(rule)),
    }
}

fn blocks_from_exec(cs: &Vec<char>, i: usize, f: Filter) -> (r: Result<Filter, RuleError>)
    requires
        i <= cs.len(),
    ensures
        match blocks_from(cs@, i as int, f@) {
            Ok(g) => r matches Ok(x) && x@ == g,
            Err(e) => r matches Err(x) && x@ == e,
        },
    decreases cs.len() - i,
{
    let k = take_whitespace(cs, i);
    if k >= cs.len() {
        return Ok(f);
    }
    if starts_at_exec(cs, k, "protein") {
        let b = take_word(cs, k);
        match protein_block_exec(cs, b, f) {
            Err(e) => Err(e),
            Ok((g, j)) => if i < j {
                blocks_from_exec(cs, j, g)
            } else {
                Ok(g)
            },
        }
    } else if starts_at_exec(cs, k, "peptide") {
        let b = take_word(cs, k);
        match peptide_block_exec(cs, b, f) {
            Err(e) => Err(e),
            Ok((g, j)) => if i < j {
                blocks_from_exec(cs, j, g)
            } else {
                Ok(g)
            },
        }
    } else {
        let e = take_word(cs, k);
        Err(RuleError::Command(string_of(cs, k, e)))
    }
}

/// Read a rule text into a `Filter`
pub fn parse(input: &str) -> (r: Result<Filter, RuleError>)
    ensures
        match parse_rules(input@) {
            Ok(g) => r matches Ok(x) && x@ == g,
            Err(e) => r matches Err(x) && x@ == e,
        },
        input@.len() <= u32::MAX ==> (r matches Ok(f) ==> f.wf()),
{
    proof {
        if input@.len() <= u32::MAX {
            lemma_parsed_rules_wf(input@);
        }
    }
    let cs = chars_of(input);
    let f = Filter::default();
    assert(f@.peptide_filters =~= Seq::<PeptideFilterV>::empty());
    assert(f@.protein_filters =~= Seq::<ProteinFilter>::empty());
    blocks_from_exec(&cs, 0, f)
}

/// Read one protein rule from the start of `input`; gives the rule and the
/// text after it
pub fn parse_protein_filter(input: &str) -> (r: Result<(ProteinFilter, &str), RuleError>)
    ensures
        match protein_rule(input@, 0) {
            Ok((f, e)) => r matches Ok((x, rest)) && x == f && rest@ == input@.subrange(e, input@.len() as int),
            Err(e) => r matches Err(x) && x@ == e,
        },
{
    let cs = chars_of(input);
    match protein_rule_exec(&cs, 0) {
        Err(e) => Err(e),
        Ok((f, e)) => Ok((f, input.substring_char(e, cs.len()))),
    }
}

/// Read one peptide rule from the start of `input`; gives the rule and the
/// text after it
pub fn parse_peptide_filter(input: &str) -> (r: Result<(PeptideFilter, &str), RuleError>)
    ensures
        match peptide_rule(input@, 0) {
            Ok((f, e)) => r matches Ok((x, rest)) && x@ == f && rest@ == input@.subrange(e, input@.len() as int),
            Err(e) => r matches Err(x) && x@ == e,
        },
{
    let cs = chars_of(input);
    match peptide_rule_exec(&cs, 0) {
        Err(e) => Err(e),
        Ok((f, e)) => Ok((f, input.substring_char(e, cs.len()))),
    }
}

} // verus!
