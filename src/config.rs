use vstd::prelude::*;

use std::path::PathBuf;

use crate::field::{Field, FieldView};
use crate::field_type::FieldType;
use crate::key::{trim_text, trimmed};
use crate::line_record::field_views;
use crate::order::Order;

verus! {

#[verifier::external_type_specification]
#[verifier::external_body]
pub struct ExRegex(regex::Regex);

#[verifier::external_type_specification]
#[verifier::external_body]
pub struct ExRegexError(regex::Error);

/// Whether the regular expression `pattern` matches somewhere in `text`, as
/// `regex::Regex::is_match` decides it.
pub uninterp spec fn pattern_matches(pattern: Seq<char>, text: Seq<char>) -> bool;

/// Relies on `regex::Regex::new`.
#[verifier::external_body]
fn compile_regex(source: &str) -> (r: Result<regex::Regex, regex::Error>) {
    regex::Regex::new(source)
}

/// Relies on `regex::Regex::is_match`, for the expression that `LinePattern::new` compiled
/// from the pattern's source.
#[verifier::external_body]
fn pattern_is_match(p: &LinePattern, text: &str) -> (r: bool)
    ensures
        r == pattern_matches(p.source_spec(), text@),
{
    p.regex.is_match(text)
}

/// Relies on `num_cpus::get`; the count depends on the machine.
#[verifier::external_body]
fn num_cpus_get() -> (r: usize) {
    num_cpus::get()
}

/// The number of CPUs available to this process, at least one.
pub fn cpu_count() -> (r: usize)
    ensures
        r >= 1,
{
    let n = num_cpus_get();
    if n == 0 {
        1
    } else {
        n
    }
}

/// A regular expression that selects lines to leave out, with the source it was compiled from.
pub struct LinePattern {
    source: String,
    regex: regex::Regex,
}

/// The source of a pattern that failed to compile.
#[derive(Debug)]
pub struct PatternError {
    pub source: String,
}

impl LinePattern {
    pub closed spec fn source_spec(&self) -> Seq<char> {
        self.source@
    }

    /// The pattern compiled from `source`, or the error when `source` is no valid expression.
    pub fn new(source: &str) -> (r: Result<LinePattern, PatternError>)
        ensures
            r matches Ok(p) ==> p.source_spec() == source@,
            r matches Err(e) ==> e.source@ == source@,
    {
        match compile_regex(source) {
            Ok(regex) => Ok(LinePattern { source: source.to_owned(), regex }),
            Err(_) => Err(PatternError { source: source.to_owned() }),
        }
    }

    /// The source of the pattern.
    pub fn source(&self) -> (r: &str)
        ensures
            r@ == self.source_spec(),
    {
        self.source.as_str()
    }

    /// Whether the pattern matches somewhere in `text`.
    pub fn is_match(&self, text: &str) -> (r: bool)
        ensures
            r == pattern_matches(self.source_spec(), text@),
    {
        pattern_is_match(self, text)
    }
}

/// Whether a line is left out: blank lines when `ignore_empty`, and lines whose trimmed text
/// the pattern matches.
pub open spec fn line_skipped(ignore_empty: bool, pattern: Option<Seq<char>>, line: Seq<char>) -> bool {
    (ignore_empty && trimmed(line).len() == 0) || (pattern matches Some(p) && pattern_matches(
        p,
        trimmed(line),
    ))
}

/// The task count of a job: the requested one, or the CPU count when 0 is requested.
pub open spec fn resolved_tasks(requested: usize, cpus: usize) -> usize {
    if requested == 0 {
        cpus
    } else {
        requested
    }
}

/// The run budget of a job: the requested one, raised to twice the task count.
pub open spec fn resolved_runs(requested: usize, tasks: usize) -> int {
    if requested > 2 * tasks {
        requested as int
    } else {
        2 * tasks
    }
}

/// The open-file soft limit a job needs: its run budget and 256 more, and never below the
/// current soft limit.
pub open spec fn raised_limit(files: usize, current_soft: u64) -> int {
    if files + 256 > current_soft {
        files + 256
    } else {
        current_soft as int
    }
}

/// The soft limit on open files to set for a job with `files` runs.
pub fn raised_soft_limit(files: usize, current_soft: u64) -> (r: u64)
    requires
        files + 256 <= u64::MAX,
    ensures
        r == raised_limit(files, current_soft),
{
    let need = files as u64 + 256;
    if need > current_soft {
        need
    } else {
        current_soft
    }
}

/// The settings of one sort job.
pub struct Config {
    tmp: PathBuf,
    tmp_prefix: String,
    tmp_suffix: String,
    tasks: usize,
    queue_size: usize,
    field_separator: char,
    ignore_empty: bool,
    ignore_lines: Option<LinePattern>,
    concurrent_merge: bool,
    chunk_size_bytes: u64,
    files: usize,
    fields: Vec<Field>,
    order: Order,
    prefix: Vec<String>,
    suffix: Vec<String>,
    endl: char,
}

/// The capacity of the queue of chunks waiting for a worker.
pub const QUEUE_SIZE: usize = 4096;

impl Config {
    pub closed spec fn tasks_spec(&self) -> usize {
        self.tasks
    }

    pub closed spec fn files_spec(&self) -> usize {
        self.files
    }

    pub closed spec fn fields_spec(&self) -> Seq<FieldView> {
        field_views(self.fields@)
    }

    pub closed spec fn order_spec(&self) -> Order {
        self.order
    }

    pub closed spec fn separator_spec(&self) -> char {
        self.field_separator
    }

    pub closed spec fn ignore_empty_spec(&self) -> bool {
        self.ignore_empty
    }

    pub closed spec fn pattern_spec(&self) -> Option<Seq<char>> {
        match &self.ignore_lines {
            Some(p) => Some(p.source_spec()),
            None => None,
        }
    }

    pub closed spec fn tmp_prefix_spec(&self) -> Seq<char> {
        self.tmp_prefix@
    }

    pub closed spec fn tmp_suffix_spec(&self) -> Seq<char> {
        self.tmp_suffix@
    }

    pub closed spec fn queue_size_spec(&self) -> usize {
        self.queue_size
    }

    pub closed spec fn concurrent_merge_spec(&self) -> bool {
        self.concurrent_merge
    }

    pub closed spec fn chunk_size_spec(&self) -> u64 {
        self.chunk_size_bytes
    }

    pub closed spec fn endl_spec(&self) -> char {
        self.endl
    }

    pub closed spec fn prefix_spec(&self) -> Seq<Seq<char>> {
        self.prefix@.map_values(|s: String| s@)
    }

    pub closed spec fn suffix_spec(&self) -> Seq<Seq<char>> {
        self.suffix@.map_values(|s: String| s@)
    }

    /// The configuration of a job from the settings a caller chose, on a machine with `cpus`
    /// CPUs: no fields means the whole line as one string key; 0 tasks means one per CPU;
    /// the run budget is at least twice the task count. Run files are named `part-*.unmerged`.
    pub fn new(
        tmp: PathBuf,
        tasks: usize,
        cpus: usize,
        field_separator: char,
        ignore_empty: bool,
        ignore_lines: Option<LinePattern>,
        concurrent_merge: bool,
        chunk_size_bytes: u64,
        files: usize,
        fields: Vec<Field>,
        order: Order,
        prefix: Vec<String>,
        suffix: Vec<String>,
        endl: char,
    ) -> (r: Config)
        requires
            tasks <= usize::MAX / 2,
            cpus >= 1,
            cpus <= usize::MAX / 2,
        ensures
            r.tasks_spec() == resolved_tasks(tasks, cpus),
            r.tasks_spec() >= 1,
            r.files_spec() == resolved_runs(files, resolved_tasks(tasks, cpus)),
            fields@.len() == 0 ==> r.fields_spec() == seq![Field::new_spec(0, FieldType::String)],
            fields@.len() > 0 ==> r.fields_spec() == field_views(fields@),
            r.order_spec() == order,
            r.separator_spec() == field_separator,
            r.ignore_empty_spec() == ignore_empty,
            r.pattern_spec() == match ignore_lines {
                Some(p) => Some(p.source_spec()),
                None => None::<Seq<char>>,
            },
            r.prefix_spec() == prefix@.map_values(|s: String| s@),
            r.suffix_spec() == suffix@.map_values(|s: String| s@),
            r.tmp_prefix_spec() == "part-"@,
            r.tmp_suffix_spec() == ".unmerged"@,
            r.queue_size_spec() == QUEUE_SIZE,
            r.concurrent_merge_spec() == concurrent_merge,
            r.chunk_size_spec() == chunk_size_bytes,
            r.endl_spec() == endl,
    {
        let fields = if fields.len() == 0 {
            let mut v: Vec<Field> = Vec::new();
            v.push(Field::new(0, FieldType::String));
            proof {
                assert(field_views(v@) =~= seq![Field::new_spec(0, FieldType::String)]);
            }
            v
        } else {
            fields
        };
        let tasks = if tasks == 0 {
            cpus
        } else {
            tasks
        };
        let files = if files > tasks * 2 {
            files
        } else {
            tasks * 2
        };
        Config {
            tmp,
            tmp_prefix: "part-".to_owned(),
            tmp_suffix: ".unmerged".to_owned(),
            tasks,
            queue_size: QUEUE_SIZE,
            field_separator,
            ignore_empty,
            ignore_lines,
            concurrent_merge,
            chunk_size_bytes,
            files,
            fields,
            order,
            prefix,
            suffix,
            endl,
        }
    }

    /// Whether `line` is left out of the sort.
    pub fn skip_line(&self, line: &str) -> (r: bool)
        ensures
            r == line_skipped(self.ignore_empty_spec(), self.pattern_spec(), line@),
    {
        let t = trim_text(line);
        if self.ignore_empty && t.is_empty() {
            return true;
        }
        match &self.ignore_lines {
            Some(p) => p.is_match(t),
            None => false,
        }
    }

    /// The directory for run files.
    pub fn tmp(&self) -> &PathBuf {
        &self.tmp
    }

    /// The prefix of run file names.
    pub fn tmp_prefix(&self) -> (r: &String)
        ensures
            r@ == self.tmp_prefix_spec(),
    {
        &self.tmp_prefix
    }

    /// The suffix of run file names.
    pub fn tmp_suffix(&self) -> (r: &String)
        ensures
            r@ == self.tmp_suffix_spec(),
    {
        &self.tmp_suffix
    }

    /// The number of workers.
    pub fn tasks(&self) -> (r: usize)
        ensures
            r == self.tasks_spec(),
    {
        self.tasks
    }

    /// The capacity of the queue of chunks waiting for a worker.
    pub fn queue_size(&self) -> (r: usize)
        ensures
            r == self.queue_size_spec(),
    {
        self.queue_size
    }

    /// The character between fields.
    pub fn field_separator(&self) -> (r: char)
        ensures
            r == self.separator_spec(),
    {
        self.field_separator
    }

    /// Whether blank lines are left out.
    pub fn ignore_empty(&self) -> (r: bool)
        ensures
            r == self.ignore_empty_spec(),
    {
        self.ignore_empty
    }

    /// The pattern of lines left out, if any.
    pub fn ignore_lines(&self) -> (r: &Option<LinePattern>)
        ensures
            (match r {
                Some(p) => Some(p.source_spec()),
                None => None::<Seq<char>>,
            }) == self.pattern_spec(),
    {
        &self.ignore_lines
    }

    /// Whether each worker merges its runs before the final merge.
    pub fn concurrent_merge(&self) -> (r: bool)
        ensures
            r == self.concurrent_merge_spec(),
    {
        self.concurrent_merge
    }

    /// The target size of a chunk.
    pub fn chunk_size_bytes(&self) -> (r: u64)
        ensures
            r == self.chunk_size_spec(),
    {
        self.chunk_size_bytes
    }

    /// The run budget.
    pub fn files(&self) -> (r: usize)
        ensures
            r == self.files_spec(),
    {
        self.files
    }

    /// The fields that key each record.
    pub fn fields(&self) -> (r: &Vec<Field>)
        ensures
            field_views(r@) == self.fields_spec(),
    {
        &self.fields
    }

    /// The direction of the sort.
    pub fn order(&self) -> (r: Order)
        ensures
            r == self.order_spec(),
    {
        self.order
    }

    /// The lines written before the records.
    pub fn prefix(&self) -> (r: &Vec<String>)
        ensures
            r@.map_values(|s: String| s@) == self.prefix_spec(),
    {
        &self.prefix
    }

    /// The lines written after the records.
    pub fn suffix(&self) -> (r: &Vec<String>)
        ensures
            r@.map_values(|s: String| s@) == self.suffix_spec(),
    {
        &self.suffix
    }

    /// The line terminator.
    pub fn endl(&self) -> (r: char)
        ensures
            r == self.endl_spec(),
    {
        self.endl
    }
}

} // verus!
