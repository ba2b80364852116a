//! The command line: its options as plain data, and the decisions taken from them.
use vstd::prelude::*;
use std::collections::HashMap;
use crate::input::{InputFormat, InputError, spec_input_format, SpecInputError};
use crate::output::{emit, spec_emit, OutputFormat, OutputError, spec_output_format, SpecOutputError};
use crate::query::{evaluate, results_view, spec_evaluate, QueryError, SpecQueryError};
use crate::schema::{args_with_names, renamed_values};
use crate::value::SpecValue;

verus! {

/// When output is coloured.
#[derive(Clone, Copy, Debug, PartialEq, Eq, Structural)]
pub enum ColorMode {
    /// When writing to a terminal and `NO_COLOR` is not set.
    Auto,
    Always,
    Never,
}

/// The command-line options.
pub struct Args {
    /// The query (none: the identity).
    pub query: Option<String>,
    /// The input format name (none: detect it).
    pub input_format: Option<String>,
    /// The output format name (none: Candid text).
    pub output: Option<String>,
    /// Paths of `.did` schema files.
    pub did: Vec<String>,
    /// When to colour output.
    pub color: ColorMode,
    /// Single-line output.
    pub compact: bool,
    /// Blobs longer than this many bytes are written as hex.
    pub blob_threshold: usize,
    /// Fail when no value is written.
    pub exit_status: bool,
}

impl ColorMode {
    /// Whether to colour output: `Always` and `Never` decide alone; `Auto`
    /// colours when writing to a terminal and `NO_COLOR` is not set.
    pub fn use_color(self, is_tty: bool, no_color: bool) -> (r: bool)
        ensures
            r == match self {
                ColorMode::Always => true,
                ColorMode::Never => false,
                ColorMode::Auto => is_tty && !no_color,
            },
    {
        match self {
            ColorMode::Always => true,
            ColorMode::Never => false,
            ColorMode::Auto => is_tty && !no_color,
        }
    }
}

/// The input format that `--input-format` names (none: detect it).
pub open spec fn spec_chosen_input(name: Option<Seq<char>>) -> Result<InputFormat, SpecInputError> {
    match name {
        None => Ok(InputFormat::Auto),
        Some(s) => match spec_input_format(s) {
            Some(f) => Ok(f),
            None => Err(SpecInputError::UnknownFormat(s)),
        },
    }
}

/// The output format that `--output` names (none: Candid text).
pub open spec fn spec_chosen_output(name: Option<Seq<char>>) -> Result<OutputFormat, SpecOutputError> {
    match name {
        None => Ok(OutputFormat::Candid),
        Some(s) => match spec_output_format(s) {
            Some(f) => Ok(f),
            None => Err(SpecOutputError::UnknownFormat(s)),
        },
    }
}

pub open spec fn opt_view(o: Option<String>) -> Option<Seq<char>> {
    match o {
        Some(s) => Some(s@),
        None => None,
    }
}

impl Args {
    /// The input format the options choose.
    pub fn input_format(&self) -> (r: Result<InputFormat, InputError>)
        ensures
            match spec_chosen_input(opt_view(self.input_format)) {
                Ok(f) => r == Ok::<InputFormat, InputError>(f),
                Err(e) => r matches Err(x) && x@ == e,
            },
    {
        match &self.input_format {
            None => Ok(InputFormat::Auto),
            Some(s) => InputFormat::from_str(s.as_str()),
        }
    }

    /// The output format the options choose.
    pub fn output_format(&self) -> (r: Result<OutputFormat, OutputError>)
        ensures
            match spec_chosen_output(opt_view(self.output)) {
                Ok(f) => r == Ok::<OutputFormat, OutputError>(f),
                Err(e) => r matches Err(x) && x@ == e,
            },
    {
        match &self.output {
            None => Ok(OutputFormat::Candid),
            Some(s) => OutputFormat::from_str(s.as_str()),
        }
    }
}

/// Whether the run fails for having written nothing: only with `--exit-status`.
pub fn fails_for_no_output(exit_status: bool, emitted: usize) -> (r: bool)
    ensures
        r == (exit_status && emitted == 0),
{
    exit_status && emitted == 0
}

/// Why writing the results of one input stopped.
#[derive(Debug, PartialEq, Eq)]
pub enum RenderError {
    /// The query failed on the input.
    Query(QueryError),
    /// A result could not be written.
    Output(OutputError),
}

/// The mathematical model of a [`RenderError`].
pub enum SpecRenderError {
    Query(SpecQueryError),
    Output(SpecOutputError),
}

impl View for RenderError {
    type V = SpecRenderError;

    open spec fn view(&self) -> SpecRenderError {
        match self {
            RenderError::Query(e) => SpecRenderError::Query(e@),
            RenderError::Output(e) => SpecRenderError::Output(e@),
        }
    }
}

/// What one input gives: the bytes of its results, in order, up to the
/// first that cannot be written; how many results those are; and why the
/// writing stopped, if it did.
pub struct Rendered {
    pub bytes: Vec<u8>,
    pub count: usize,
    pub error: Option<RenderError>,
}

/// `acc` followed by the bytes of `rs[k..]`, each with the names of `names`
/// put on its labels and written in `format`, up to the first that cannot
/// be written; then the number of results written, and that result's error.
pub open spec fn spec_emit_each(
    rs: Seq<Seq<SpecValue>>,
    names: Map<u32, String>,
    format: OutputFormat,
    k: nat,
    acc: Seq<u8>,
) -> (Seq<u8>, nat, Option<SpecOutputError>)
    decreases rs.len() - k,
{
    if k >= rs.len() {
        (acc, k, None)
    } else {
        match spec_emit(renamed_values(rs[k as int], names), format) {
            Err(e) => (acc, k, Some(e)),
            Ok(b) => spec_emit_each(rs, names, format, k + 1, acc + b),
        }
    }
}

/// What the input `a` gives under the query `q`, with the names `names`,
/// written in `format`: nothing and the query's error when the query
/// fails; otherwise its results written one after another.
pub open spec fn spec_render(
    a: Seq<SpecValue>,
    q: Option<Seq<char>>,
    names: Map<u32, String>,
    format: OutputFormat,
) -> (Seq<u8>, nat, Option<SpecRenderError>) {
    match spec_evaluate(a, q) {
        Err(e) => (Seq::empty(), 0, Some(SpecRenderError::Query(e))),
        Ok(rs) => {
            let w = spec_emit_each(rs, names, format, 0, Seq::empty());
            (w.0, w.1, match w.2 {
                Some(e) => Some(SpecRenderError::Output(e)),
                None => None,
            })
        },
    }
}

/// The model of an optional [`RenderError`].
pub open spec fn render_error_view(e: Option<RenderError>) -> Option<SpecRenderError> {
    match e {
        Some(x) => Some(x@),
        None => None,
    }
}

/// The text of an optional query.
pub open spec fn query_text(q: Option<&str>) -> Option<Seq<char>> {
    match q {
        Some(s) => Some(s@),
        None => None,
    }
}

/// Runs the query `query` on the input `args`, puts the names of `names`
/// on each result's labels and writes the results in `format`, one after
/// another, up to the first that fails.
#[verifier::loop_isolation(false)]
pub fn render(args: crate::value::Args, query: Option<&str>, names: &HashMap<u32, String>, format: &OutputFormat) -> (r: Rendered)
    ensures
        r.bytes@ == spec_render(args@, query_text(query), names@, *format).0,
        r.count == spec_render(args@, query_text(query), names@, *format).1,
        render_error_view(r.error) == spec_render(args@, query_text(query), names@, *format).2,
{
    let ghost a = args@;
    let ghost q = query_text(query);
    let results = match evaluate(args, query) {
        Ok(rs) => rs,
        Err(e) => {
            return Rendered { bytes: Vec::new(), count: 0, error: Some(RenderError::Query(e)) };
        },
    };
    let ghost rs = results_view(results@);
    assert(spec_evaluate(a, q) == Ok::<Seq<Seq<SpecValue>>, SpecQueryError>(rs));
    let mut bytes: Vec<u8> = Vec::new();
    let mut k: usize = 0;
    while k < results.len()
        invariant
            k <= results.len(),
            rs == results_view(results@),
            spec_evaluate(a, q) == Ok::<Seq<Seq<SpecValue>>, SpecQueryError>(rs),
            spec_emit_each(rs, names@, *format, k as nat, bytes@)
                == spec_emit_each(rs, names@, *format, 0, Seq::empty()),
        decreases results.len() - k,
    {
        let named = args_with_names(&results[k], names);
        assert(rs[k as int] == results@[k as int]@);
        match emit(&named, format) {
            Ok(b) => {
                let mut b = b;
                bytes.append(&mut b);
            },
            Err(e) => {
                assert(spec_emit(renamed_values(rs[k as int], names@), *format) == Err::<Seq<u8>, SpecOutputError>(e@));
                assert(spec_emit_each(rs, names@, *format, k as nat, bytes@) == (bytes@, k as nat, Some(e@)));
                return Rendered { bytes, count: k, error: Some(RenderError::Output(e)) };
            },
        }
        k = k + 1;
    }
    Rendered { bytes, count: k, error: None }
}

impl RenderError {
    /// The message that describes this error.
    pub fn message(&self) -> (r: String)
        ensures
            r@ == match self@ {
                SpecRenderError::Query(e) => crate::query::query_error_text(e),
                SpecRenderError::Output(e) => crate::output::output_error_text(e),
            },
    {
        match self {
            RenderError::Query(e) => e.message(),
            RenderError::Output(e) => e.message(),
        }
    }
}

} // verus!
