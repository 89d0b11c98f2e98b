//! JSON <-> TOON conversion of ticket files: the decisions taken for each
//! file, the conversion of a ticket's text, and the tally of a run.
use vstd::prelude::*;

use crate::cli::ConvertArgs;
use crate::external::{
    decoded_toon, encoded_toon, json_equal, json_from_str, json_to_string_pretty,
    json_values_equal, parsed_json, pretty_json, push_char, toon_decode, toon_encode,
};
use crate::text::{chars_of, decimal, extend, push_decimal, string_of};
use crate::toon_patch::{patched_text, quote_digit_prefix_scalars};

verus! {

#[derive(Clone, Copy, PartialEq, Eq, Debug, Structural)]
pub enum Direction {
    JsonToToon,
    ToonToJson,
}

impl Direction {
    /// The extension of the files read.
    pub open spec fn source_ext_spec(self) -> Seq<char> {
        match self {
            Direction::JsonToToon => "json"@,
            Direction::ToonToJson => "toon"@,
        }
    }

    /// The extension of the files written.
    pub open spec fn target_ext_spec(self) -> Seq<char> {
        match self {
            Direction::JsonToToon => "toon"@,
            Direction::ToonToJson => "json"@,
        }
    }

    pub fn source_ext(self) -> (r: &'static str)
        ensures
            r@ == self.source_ext_spec(),
    {
        match self {
            Direction::JsonToToon => "json",
            Direction::ToonToJson => "toon",
        }
    }

    pub fn target_ext(self) -> (r: &'static str)
        ensures
            r@ == self.target_ext_spec(),
    {
        match self {
            Direction::JsonToToon => "toon",
            Direction::ToonToJson => "json",
        }
    }
}

/// What became of one source file.
#[derive(Debug)]
pub enum Outcome {
    Converted { deleted: bool },
    Skipped(&'static str),
}

/// Counts of a conversion run.
#[derive(Debug)]
pub struct Stats {
    pub converted: usize,
    pub skipped: usize,
    pub deleted: usize,
    pub failed: usize,
}

impl Stats {
    /// Only converted files can have been deleted.
    pub open spec fn wf(&self) -> bool {
        self.deleted <= self.converted
    }

    /// Number of files accounted for.
    pub open spec fn total(&self) -> int {
        self.converted + self.skipped + self.failed
    }

    pub fn new() -> (s: Stats)
        ensures
            s.wf(),
            s.converted == 0 && s.skipped == 0 && s.deleted == 0 && s.failed == 0,
    {
        Stats { converted: 0, skipped: 0, deleted: 0, failed: 0 }
    }

    /// Counts the outcome of one file.
    pub fn record(&mut self, outcome: &Outcome)
        requires
            old(self).wf(),
            old(self).converted < usize::MAX,
            old(self).skipped < usize::MAX,
        ensures
            final(self).wf(),
            final(self).total() == old(self).total() + 1,
            final(self).failed == old(self).failed,
            match *outcome {
                Outcome::Converted { deleted } => {
                    &&& final(self).converted == old(self).converted + 1
                    &&& final(self).skipped == old(self).skipped
                    &&& final(self).deleted == old(self).deleted + if deleted {
                        1int
                    } else {
                        0
                    }
                },
                Outcome::Skipped(_) => {
                    &&& final(self).converted == old(self).converted
                    &&& final(self).skipped == old(self).skipped + 1
                    &&& final(self).deleted == old(self).deleted
                },
            },
    {
        match outcome {
            Outcome::Converted { deleted } => {
                self.converted = self.converted + 1;
                if *deleted {
                    self.deleted = self.deleted + 1;
                }
            },
            Outcome::Skipped(_) => {
                self.skipped = self.skipped + 1;
            },
        }
    }

    /// Counts one file that failed to convert.
    pub fn record_failure(&mut self)
        requires
            old(self).wf(),
            old(self).failed < usize::MAX,
        ensures
            final(self).wf(),
            final(self).total() == old(self).total() + 1,
            final(self).failed == old(self).failed + 1,
            final(self).converted == old(self).converted,
            final(self).skipped == old(self).skipped,
            final(self).deleted == old(self).deleted,
    {
        self.failed = self.failed + 1;
    }

    /// The run fails when any file failed.
    pub fn has_failures(&self) -> (r: bool)
        ensures
            r == (self.failed > 0),
    {
        self.failed > 0
    }
}

impl Default for Stats {
    fn default() -> (s: Stats)
        ensures
            s.converted == 0 && s.skipped == 0 && s.deleted == 0 && s.failed == 0,
    {
        Stats::new()
    }
}

/// What to do with one source file, decided before it is read.
#[derive(Debug)]
pub enum Plan {
    /// Leave source and target alone, for the reason given.
    Skip(&'static str),
    /// Convert the file; write the target only when `write_target`, then
    /// delete the source only when `remove_source`.
    Convert { write_target: bool, remove_source: bool },
}

pub open spec fn skip_reason() -> Seq<char> {
    "target exists (use --force to overwrite)"@
}

/// The plan for one source file: an existing target is only overwritten
/// with `--force`; `--dry-run` writes and deletes nothing; the source is
/// deleted after a write unless `--keep`.
pub fn plan_conversion(target_exists: bool, args: &ConvertArgs) -> (p: Plan)
    ensures
        match p {
            Plan::Skip(reason) => target_exists && !args.force && reason@ == skip_reason(),
            Plan::Convert { write_target, remove_source } => {
                &&& !(target_exists && !args.force)
                &&& write_target == !args.dry_run
                &&& remove_source == (!args.dry_run && !args.keep)
            },
        },
{
    if target_exists && !args.force {
        return Plan::Skip("target exists (use --force to overwrite)");
    }
    if args.dry_run {
        return Plan::Convert { write_target: false, remove_source: false };
    }
    Plan::Convert { write_target: true, remove_source: !args.keep }
}

/// The outcome of a converted file under a plan.
pub fn converted_outcome(remove_source: bool) -> (o: Outcome)
    ensures
        o == (Outcome::Converted { deleted: remove_source }),
{
    Outcome::Converted { deleted: remove_source }
}

/// Why a ticket's text could not be converted.
#[derive(Debug)]
pub enum ConvertError {
    /// The source is not valid JSON.
    InvalidJson(serde_json::Error),
    /// The source is not valid TOON.
    InvalidToon(toon_format::ToonError),
    /// The TOON encoder refused the value.
    ToonEncode(toon_format::ToonError),
    /// The encoded TOON could not be decoded again.
    RoundTripParse(toon_format::ToonError),
    /// The encoded TOON decodes to another value; nothing is written.
    RoundTripMismatch,
    /// The JSON printer refused the value.
    JsonEncode(serde_json::Error),
}

/// Read a source text as a value.
pub fn decode(text: &str, direction: Direction) -> (r: Result<serde_json::Value, ConvertError>)
    ensures
        match direction {
            Direction::JsonToToon => match r {
                Ok(v) => parsed_json(text@) == Some(v),
                Err(e) => parsed_json(text@) is None && e is InvalidJson,
            },
            Direction::ToonToJson => match r {
                Ok(v) => decoded_toon(text@) == Some(v),
                Err(e) => decoded_toon(text@) is None && e is InvalidToon,
            },
        },
{
    match direction {
        Direction::JsonToToon => match json_from_str(text) {
            Ok(v) => Ok(v),
            Err(e) => Err(ConvertError::InvalidJson(e)),
        },
        Direction::ToonToJson => match toon_decode(text) {
            Ok(v) => Ok(v),
            Err(e) => Err(ConvertError::InvalidToon(e)),
        },
    }
}

/// `r` is what encoding `value` as TOON gives: the encoder's text with its
/// under-quoting patched, handed out only when it decodes back to an equal
/// value.
pub open spec fn toon_result(r: Result<String, ConvertError>, value: serde_json::Value) -> bool {
    match encoded_toon(value) {
        None => r matches Err(ConvertError::ToonEncode(_)),
        Some(raw) => match decoded_toon(patched_text(raw)) {
            None => r matches Err(ConvertError::RoundTripParse(_)),
            Some(back) => if json_equal(back, value) {
                r matches Ok(s) && s@ == patched_text(raw)
            } else {
                r matches Err(ConvertError::RoundTripMismatch)
            },
        },
    }
}

/// `r` is what encoding `value` in the target format of `direction` gives.
pub open spec fn encode_result(
    r: Result<String, ConvertError>,
    value: serde_json::Value,
    direction: Direction,
) -> bool {
    match direction {
        Direction::JsonToToon => toon_result(r, value),
        Direction::ToonToJson => match pretty_json(value) {
            None => r matches Err(ConvertError::JsonEncode(_)),
            Some(text) => r matches Ok(s) && s@ == text.push('\n'),
        },
    }
}

/// Encode a value as TOON, patch the encoder's known under-quoting, and
/// check that the text decodes back to the same value before handing it out.
pub fn encode_toon(value: &serde_json::Value) -> (r: Result<String, ConvertError>)
    ensures
        toon_result(r, *value),
{
    let raw = match toon_encode(value) {
        Ok(raw) => raw,
        Err(e) => return Err(ConvertError::ToonEncode(e)),
    };
    let patched = quote_digit_prefix_scalars(raw.as_str());
    let decoded = match toon_decode(patched.as_str()) {
        Ok(d) => d,
        Err(e) => return Err(ConvertError::RoundTripParse(e)),
    };
    if !json_values_equal(&decoded, value) {
        return Err(ConvertError::RoundTripMismatch);
    }
    Ok(patched)
}

/// Write a value in the target format: TOON through `encode_toon`, JSON
/// pretty-printed with a final newline.
pub fn encode(value: &serde_json::Value, direction: Direction) -> (r: Result<String, ConvertError>)
    ensures
        encode_result(r, *value, direction),
{
    match direction {
        Direction::JsonToToon => encode_toon(value),
        Direction::ToonToJson => match json_to_string_pretty(value) {
            Ok(text) => {
                let mut out = text;
                push_char(&mut out, '\n');
                Ok(out)
            },
            Err(e) => Err(ConvertError::JsonEncode(e)),
        },
    }
}

/// Convert the text of one ticket: read it in the source format of
/// `direction`, write it in the target format.
pub fn convert_text(text: &str, direction: Direction) -> (r: Result<String, ConvertError>)
    ensures
        match direction {
            Direction::JsonToToon => match parsed_json(text@) {
                None => r matches Err(ConvertError::InvalidJson(_)),
                Some(v) => encode_result(r, v, direction),
            },
            Direction::ToonToJson => match decoded_toon(text@) {
                None => r matches Err(ConvertError::InvalidToon(_)),
                Some(v) => encode_result(r, v, direction),
            },
        },
{
    let value = decode(text, direction)?;
    encode(&value, direction)
}

/// What to do with a source file once its text was converted, or failed
/// to be, under a `Plan::Convert`.
#[derive(Debug)]
pub enum FileStep {
    /// Report the failure; nothing is written and nothing is removed.
    Fail(ConvertError),
    /// A dry run: nothing is written; the file counts as converted.
    Preview,
    /// Write `text` to the target, then remove the source when
    /// `remove_source`.
    Write { text: String, remove_source: bool },
}

/// The step for one source file: a failed conversion writes and removes
/// nothing; a successful one writes exactly the converted text when the
/// plan writes, and removes the source only as the plan says.
pub fn file_step(write_target: bool, remove_source: bool, converted: Result<String, ConvertError>) -> (s: FileStep)
    ensures
        match converted {
            Err(e) => s == FileStep::Fail(e),
            Ok(t) => if write_target {
                s matches FileStep::Write { text, remove_source: r } && text@ == t@ && r
                    == remove_source
            } else {
                s is Preview
            },
        },
{
    match converted {
        Err(e) => FileStep::Fail(e),
        Ok(text) => if write_target {
            FileStep::Write { text, remove_source }
        } else {
            FileStep::Preview
        },
    }
}

/// Number of files of a run that were converted (`None` marks a failure).
pub open spec fn count_converted(r: Seq<Option<Outcome>>) -> nat
    decreases r.len(),
{
    if r.len() == 0 {
        0
    } else {
        count_converted(r.drop_last()) + if r.last() matches Some(Outcome::Converted { .. }) {
            1nat
        } else {
            0
        }
    }
}

/// Number of files of a run that were skipped.
pub open spec fn count_skipped(r: Seq<Option<Outcome>>) -> nat
    decreases r.len(),
{
    if r.len() == 0 {
        0
    } else {
        count_skipped(r.drop_last()) + if r.last() matches Some(Outcome::Skipped(_)) {
            1nat
        } else {
            0
        }
    }
}

/// Number of files of a run whose source was deleted.
pub open spec fn count_deleted(r: Seq<Option<Outcome>>) -> nat
    decreases r.len(),
{
    if r.len() == 0 {
        0
    } else {
        count_deleted(r.drop_last()) + if r.last() matches Some(
            Outcome::Converted { deleted: true },
        ) {
            1nat
        } else {
            0
        }
    }
}

/// Number of files of a run that failed.
pub open spec fn count_failed(r: Seq<Option<Outcome>>) -> nat
    decreases r.len(),
{
    if r.len() == 0 {
        0
    } else {
        count_failed(r.drop_last()) + if r.last() is None {
            1nat
        } else {
            0
        }
    }
}

proof fn lemma_count_failed(r: Seq<Option<Outcome>>)
    ensures
        count_failed(r) > 0 <==> exists|i: int| 0 <= i < r.len() && #[trigger] r[i] is None,
    decreases r.len(),
{
    if r.len() > 0 {
        let t = r.drop_last();
        lemma_count_failed(t);
        if exists|i: int| 0 <= i < t.len() && #[trigger] t[i] is None {
            let i = choose|i: int| 0 <= i < t.len() && #[trigger] t[i] is None;
            assert(r[i] is None);
        }
        if exists|i: int| 0 <= i < r.len() && #[trigger] r[i] is None {
            let i = choose|i: int| 0 <= i < r.len() && #[trigger] r[i] is None;
            if i < r.len() - 1 {
                assert(t[i] is None);
            }
        }
    }
}

/// The tally of a whole run, from the result of each file in order
/// (`None` for a file that failed): every count is the number of files
/// with that result, and the run fails exactly when some file failed.
pub fn tally(results: &Vec<Option<Outcome>>) -> (s: Stats)
    ensures
        s.wf(),
        s.converted == count_converted(results@),
        s.skipped == count_skipped(results@),
        s.deleted == count_deleted(results@),
        s.failed == count_failed(results@),
        s.total() == results@.len(),
        s.failed > 0 <==> exists|i: int| 0 <= i < results@.len() && #[trigger] results@[i] is None,
{
    let mut stats = Stats::new();
    let mut i: usize = 0;
    while i < results.len()
        invariant
            i <= results@.len(),
            stats.wf(),
            stats.total() == i,
            stats.converted == count_converted(results@.take(i as int)),
            stats.skipped == count_skipped(results@.take(i as int)),
            stats.deleted == count_deleted(results@.take(i as int)),
            stats.failed == count_failed(results@.take(i as int)),
        decreases results.len() - i,
    {
        assert(results@.take(i + 1).drop_last() =~= results@.take(i as int));
        assert(results@.take(i + 1).last() == results@[i as int]);
        match &results[i] {
            Some(outcome) => {
                stats.record(outcome);
            },
            None => {
                stats.record_failure();
            },
        }
        i = i + 1;
    }
    assert(results@.take(results.len() as int) =~= results@);
    proof {
        lemma_count_failed(results@);
    }
    stats
}

/// TOON output is only ever handed out when it decodes back to a value
/// equal to the source: an encoder fault cannot silently lose data.
pub proof fn law_toon_output_round_trips(r: Result<String, ConvertError>, value: serde_json::Value)
    requires
        toon_result(r, value),
    ensures
        match r {
            Ok(s) => decoded_toon(s@) matches Some(back) && json_equal(back, value),
            Err(_) => true,
        },
{
}

/// The summary printed after a run.
pub open spec fn summary_spec(stats: &Stats, direction: Direction, dry_run: bool) -> Seq<char> {
    let prefix = if dry_run {
        "[dry-run] "@
    } else {
        Seq::empty()
    };
    let label = match direction {
        Direction::JsonToToon => "json -> toon"@,
        Direction::ToonToJson => "toon -> json"@,
    };
    prefix + label + ": "@ + decimal(stats.converted as nat) + " converted, "@ + decimal(
        stats.skipped as nat,
    ) + " skipped, "@ + decimal(stats.deleted as nat) + " deleted, "@ + decimal(
        stats.failed as nat,
    ) + " failed"@
}

/// The one-line summary of a run.
pub fn summary_line(stats: &Stats, direction: Direction, dry_run: bool) -> (r: String)
    ensures
        r@ == summary_spec(stats, direction, dry_run),
{
    let mut out: Vec<char> = Vec::new();
    if dry_run {
        extend(&mut out, chars_of("[dry-run] ").as_slice());
    }
    let label = match direction {
        Direction::JsonToToon => "json -> toon",
        Direction::ToonToJson => "toon -> json",
    };
    extend(&mut out, chars_of(label).as_slice());
    extend(&mut out, chars_of(": ").as_slice());
    push_decimal(&mut out, stats.converted);
    extend(&mut out, chars_of(" converted, ").as_slice());
    push_decimal(&mut out, stats.skipped);
    extend(&mut out, chars_of(" skipped, ").as_slice());
    push_decimal(&mut out, stats.deleted);
    extend(&mut out, chars_of(" deleted, ").as_slice());
    push_decimal(&mut out, stats.failed);
    extend(&mut out, chars_of(" failed").as_slice());
    assert(out@ =~= summary_spec(stats, direction, dry_run));
    string_of(out.as_slice())
}

} // verus!
