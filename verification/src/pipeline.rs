//! The pipeline: decode, parse, clean, group, reduce.
//!
//! `analyze` takes the raw bytes of a tab-delimited, UTF-16LE dataset and the
//! five configured column names, and carries them through every stage of the
//! core: byte-order-mark removal, all-or-nothing decoding, tabular parsing
//! with type inference, required-null row filtering with identifier and date
//! coercion, per-region counting, and the exact mean and population-variance
//! fractions over the counts.  The run stops at the first structural
//! failure; a zero-row dataset flows through to zero groups and zero
//! statistics.  Reading the file, drawing the chart and printing floats are
//! the caller's work.

use vstd::prelude::*;
use crate::agg::{GroupedCounts, agg_view, column_cells, group_count, spec_group_up_to};
use crate::clean::{Coercion, clean, coercion_names, coercions_view, names_present,
    spec_clean_table};
use crate::codec::{decode_utf16le, spec_strip_bom, spec_utf16le_decode, strip_bom,
    lemma_decode_len};
use crate::error::{EncodingError, ParseError, PipelineError};
use crate::parse::{lemma_lines_count, parse, spec_lines, spec_parse, views_of};
use crate::stats::{mean_fraction, spec_sum, spec_sum_sq, variance_fraction};
use crate::table::{ColumnType, TableView, copy_chars};

verus! {

/// The configured column names: the region (group) column, the two required
/// columns — the polling-place identifier, coerced to a 32-bit integer, and
/// the polling-place name — the election-date column, coerced under the
/// fixed calendar pattern, and the name given to the count column of the
/// grouped result.
pub struct PipelineConfig {
    pub region_col: Vec<char>,
    pub id_col: Vec<char>,
    pub name_col: Vec<char>,
    pub date_col: Vec<char>,
    pub out_col: Vec<char>,
}

/// The required column names of a configuration.
pub open spec fn spec_required(cfg: &PipelineConfig) -> Seq<Seq<char>> {
    seq![cfg.id_col@, cfg.name_col@]
}

/// The coercion entries of a configuration.
pub open spec fn spec_coercions(cfg: &PipelineConfig) -> Seq<(Seq<char>, ColumnType)> {
    seq![(cfg.id_col@, ColumnType::Int), (cfg.date_col@, ColumnType::Date)]
}

/// The cleaned table of a run, from the decoded text.
pub open spec fn spec_cleaned(text: Seq<char>, cfg: &PipelineConfig) -> TableView {
    spec_clean_table(spec_parse(text, '\t')->Ok_0, spec_required(cfg), spec_coercions(cfg))
}

/// What a run yields: the grouped counts, the counts as plain values, and
/// the exact mean and population-variance fractions over them.
pub struct Analysis {
    pub groups: GroupedCounts,
    pub counts: Vec<u32>,
    pub mean_num: u64,
    pub mean_den: u64,
    pub var_num: u128,
    pub var_den: u128,
}

/// The per-group counts of a grouped result.
pub fn group_counts_vec(g: &GroupedCounts) -> (r: Vec<u32>)
    ensures
        r@.len() == g.rows@.len(),
        forall|k: int| 0 <= k < r@.len() ==> r@[k] == (#[trigger] g.rows@[k]).count,
{
    let mut out: Vec<u32> = Vec::new();
    let mut k: usize = 0;
    while k < g.rows.len()
        invariant
            k <= g.rows@.len(),
            out@.len() == k,
            forall|p: int| 0 <= p < k ==> out@[p] == (#[trigger] g.rows@[p]).count,
        decreases g.rows@.len() - k,
    {
        out.push(g.rows[k].count);
        k += 1;
    }
    out
}

/// Run the whole core over the raw bytes.  Succeeds exactly when the bytes
/// (after byte-order-mark removal) decode as UTF-16LE, the text parses as a
/// headed tab-delimited table, and every configured column name is in its
/// schema; the first failure is reported as the matching error kind.  On
/// success the grouped counts are those of `spec_group_up_to` over the
/// cleaned table, and the fractions are the exact mean and population
/// variance of the counts.
pub fn analyze(raw: &Vec<u8>, cfg: &PipelineConfig) -> (r: Result<Analysis, PipelineError>)
    requires
        raw@.len() < 0x2000_0000,
    ensures
        match r {
            Ok(a) => {
                &&& spec_utf16le_decode(spec_strip_bom(raw@)) matches Some(text)
                &&& {
                    let text = spec_utf16le_decode(spec_strip_bom(raw@))->Some_0;
                    let cleaned = spec_cleaned(text, cfg);
                    &&& spec_parse(text, '\t') is Ok
                    &&& names_present(spec_parse(text, '\t')->Ok_0, spec_required(cfg))
                    &&& names_present(
                        spec_parse(text, '\t')->Ok_0,
                        coercion_names(spec_coercions(cfg)),
                    )
                    &&& cleaned.has_col(cfg.region_col@)
                    &&& cleaned.has_col(cfg.id_col@)
                    &&& agg_view(a.groups.rows@) == spec_group_up_to(
                        column_cells(cleaned, cfg.region_col@),
                        column_cells(cleaned, cfg.id_col@),
                        cleaned.rows(),
                    )
                    &&& a.groups.key_column@ == cfg.region_col@
                    &&& a.groups.count_column@ == cfg.out_col@
                    &&& a.counts@.len() == a.groups.rows@.len()
                    &&& (forall|k: int|
                        0 <= k < a.counts@.len() ==> a.counts@[k] == (
                        #[trigger] a.groups.rows@[k]).count)
                    &&& (a.counts@.len() == 0 ==> a.mean_num == 0 && a.mean_den == 1
                        && a.var_num == 0 && a.var_den == 1)
                    &&& (a.counts@.len() > 0 ==> a.mean_num == spec_sum(a.counts@)
                        && a.mean_den == a.counts@.len() && a.var_num == a.counts@.len()
                        * spec_sum_sq(a.counts@) - spec_sum(a.counts@) * spec_sum(a.counts@)
                        && a.var_den == a.counts@.len() * a.counts@.len())
                }
            },
            Err(PipelineError::Encoding(e)) => {
                &&& spec_utf16le_decode(spec_strip_bom(raw@)) is None
                &&& e == EncodingError::Malformed
            },
            Err(PipelineError::Parse(e)) => {
                &&& spec_utf16le_decode(spec_strip_bom(raw@)) matches Some(text)
                &&& spec_parse(
                    spec_utf16le_decode(spec_strip_bom(raw@))->Some_0,
                    '\t',
                ) == Err::<TableView, ParseError>(e)
            },
            Err(PipelineError::Schema(e)) => {
                &&& spec_utf16le_decode(spec_strip_bom(raw@)) matches Some(text)
                &&& spec_parse(spec_utf16le_decode(spec_strip_bom(raw@))->Some_0, '\t') is Ok
                &&& (e.column@ == cfg.region_col@ || e.column@ == cfg.id_col@ || e.column@
                    == cfg.name_col@ || e.column@ == cfg.date_col@)
                &&& {
                    let text = spec_utf16le_decode(spec_strip_bom(raw@))->Some_0;
                    let parsed = spec_parse(text, '\t')->Ok_0;
                    !(names_present(parsed, spec_required(cfg)) && names_present(
                        parsed,
                        coercion_names(spec_coercions(cfg)),
                    ) && spec_cleaned(text, cfg).has_col(cfg.region_col@) && spec_cleaned(
                        text,
                        cfg,
                    ).has_col(cfg.id_col@))
                }
            },
        },
{
    let stripped = strip_bom(raw.as_slice());
    proof {
        assert(usize::MAX >= 0xFFFF_FFFF);
        assert(stripped@.len() <= usize::MAX / 4);
    }
    let text = match decode_utf16le(stripped) {
        Ok(t) => t,
        Err(e) => {
            return Err(PipelineError::Encoding(e));
        },
    };
    proof {
        lemma_decode_len(spec_strip_bom(raw@));
        assert(text@.len() <= 0xFFFF_FFFF);
    }
    let table = match parse(&text, '\t') {
        Ok(t) => t,
        Err(e) => {
            return Err(PipelineError::Parse(e));
        },
    };
    proof {
        lemma_lines_count(text@);
        crate::parse::lemma_lines_len_pos(text@);
        let ls = spec_lines(text@);
        let names = crate::parse::split_on(ls[0], '\t');
        crate::parse::lemma_split_len_pos(ls[0], '\t');
        let tv = spec_parse(text@, '\t')->Ok_0;
        assert(table@ == tv);
        assert(tv.cols.len() == names.len());
        assert(tv.cols[0].cells.len() == ls.skip(1).len());
        assert(ls.skip(1).len() == ls.len() - 1);
        assert(table@.rows() <= text@.len());
    }
    let mut required: Vec<Vec<char>> = Vec::new();
    required.push(copy_chars(&cfg.id_col));
    required.push(copy_chars(&cfg.name_col));
    let mut coercions: Vec<Coercion> = Vec::new();
    coercions.push(Coercion { column: copy_chars(&cfg.id_col), target: ColumnType::Int });
    coercions.push(Coercion { column: copy_chars(&cfg.date_col), target: ColumnType::Date });
    proof {
        assert(views_of(required@) =~= spec_required(cfg));
        assert(coercions_view(coercions@) =~= spec_coercions(cfg));
    }
    let cleaned = match clean(&table, &required, &coercions) {
        Ok(t) => t,
        Err(e) => {
            proof {
                assert(views_of(required@)[0] == cfg.id_col@);
                assert(views_of(required@)[1] == cfg.name_col@);
                assert(coercion_names(coercions_view(coercions@))[0] == cfg.id_col@);
                assert(coercion_names(coercions_view(coercions@))[1] == cfg.date_col@);
            }
            return Err(PipelineError::Schema(e));
        },
    };
    let groups = match group_count(&cleaned, &cfg.region_col, &cfg.id_col, &cfg.out_col) {
        Ok(g) => g,
        Err(e) => {
            return Err(PipelineError::Schema(e));
        },
    };
    let counts = group_counts_vec(&groups);
    proof {
        assert(counts@.len() <= 0xFFFF_FFFF);
    }
    let (mean_num, mean_den) = mean_fraction(&counts);
    let (var_num, var_den) = variance_fraction(&counts);
    Ok(Analysis { groups, counts, mean_num, mean_den, var_num, var_den })
}

} // verus!
