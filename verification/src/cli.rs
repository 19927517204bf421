//! The commands of the command-line tool, as plain values; the program
//! parses its arguments into them.

use vstd::prelude::*;
use crate::model::{JsonValue, Triple, TripleView};
use crate::text::{decimal, decimal_spec, join, usize_to_u64};
use vstd::string::StringExecFns;

verus! {

/// The parsed command line.
#[derive(Debug)]
pub struct Cli {
    pub command: Commands,
}

/// Top-level commands.
#[derive(Debug)]
pub enum Commands {
    /// Start the API server
    Serve { host: String, port: u16 },
    /// Analyze events from a file or inline JSON
    Analyze { file: Option<String>, json: Option<String>, format: OutputFormat },
    /// Process a batch of events
    Process { input: String, output: Option<String>, format: OutputFormat },
    /// Query the graph
    Query { subject: Option<String>, predicate: Option<String>, object: Option<String>, format: OutputFormat },
    /// Threat intelligence commands
    Threat { command: ThreatCommands },
    /// Show information about the tool
    Info,
}

/// Threat intelligence commands.
#[derive(Debug)]
pub enum ThreatCommands {
    Stats,
    Export { output: Option<String> },
    Import { input: String },
    Check { value: String, indicator_type: String },
}

/// How results are printed.
#[derive(Debug, Clone, Copy, PartialEq, Eq, Structural)]
pub enum OutputFormat {
    Text,
    Json,
    JsonPretty,
}

/// The outcome of a command: whether it succeeded, a message and data to show.
#[derive(Debug)]
pub struct CommandResult {
    pub success: bool,
    pub message: String,
    pub data: Option<JsonValue>,
}

/// The lines of triples in a query report: two spaces, subject, predicate
/// and object separated by spaces, and a line break, for each.
pub open spec fn triple_lines(ts: Seq<TripleView>) -> Seq<char>
    decreases ts.len(),
{
    if ts.len() == 0 {
        Seq::empty()
    } else {
        triple_lines(ts.drop_last()) + "  "@ + ts.last().subject + " "@ + ts.last().predicate + " "@ + ts.last().object + "\n"@
    }
}

/// The text report of a query: the number of triples found, then one line
/// per triple.
pub fn query_report(triples: &Vec<&Triple>) -> (r: String)
    ensures
        r@ == "Found "@ + decimal_spec(triples@.len() as nat) + " triples:\n"@
            + triple_lines(triples@.map_values(|t: &Triple| t@)),
{
    let ghost tv = triples@.map_values(|t: &Triple| t@);
    let count = decimal(usize_to_u64(triples.len()));
    let mut out = join(join("Found ", count.as_str()).as_str(), " triples:\n");
    let ghost head = out@;
    let mut i: usize = 0;
    proof {
        assert(tv.take(0) =~= Seq::<TripleView>::empty());
        assert(head + triple_lines(tv.take(0)) =~= head);
    }
    while i < triples.len()
        invariant
            i <= triples@.len(),
            tv == triples@.map_values(|t: &Triple| t@),
            out@ == head + triple_lines(tv.take(i as int)),
        decreases triples.len() - i,
    {
        let t = triples[i];
        proof {
            assert(tv.take(i + 1).drop_last() =~= tv.take(i as int));
            assert(tv.take(i + 1).last() == t@);
        }
        let ghost before = out@;
        out.append("  ");
        out.append(t.subject.as_str());
        out.append(" ");
        out.append(t.predicate.as_str());
        out.append(" ");
        out.append(t.object.as_str());
        out.append("\n");
        proof {
            let line = "  "@ + t.subject@ + " "@ + t.predicate@ + " "@ + t.object@ + "\n"@;
            assert(out@ =~= before + line);
            assert(triple_lines(tv.take(i + 1)) =~= triple_lines(tv.take(i as int)) + line);
            assert(head + (triple_lines(tv.take(i as int)) + line) =~= (head + triple_lines(tv.take(i as int))) + line);
        }
        i += 1;
    }
    proof {
        assert(tv.take(triples@.len() as int) =~= tv);
    }
    out
}

/// The message of a query: how many triples were found.
pub fn query_message(count: usize) -> (r: String)
    ensures
        r@ == "Found "@ + decimal_spec(count as nat) + " triples"@,
{
    let n = decimal(usize_to_u64(count));
    join(join("Found ", n.as_str()).as_str(), " triples")
}

/// The text report of a batch: how many events were processed and how many
/// actions they led to.
pub fn process_report(processed: usize, actions: usize) -> (r: String)
    ensures
        r@ == "Processed "@ + decimal_spec(processed as nat) + " events, generated "@ + decimal_spec(actions as nat) + " actions"@,
{
    let p = decimal(usize_to_u64(processed));
    let a = decimal(usize_to_u64(actions));
    let head = join(join("Processed ", p.as_str()).as_str(), " events, generated ");
    join(join(head.as_str(), a.as_str()).as_str(), " actions")
}

/// The message of a batch: how many events were processed.
pub fn process_message(processed: usize) -> (r: String)
    ensures
        r@ == "Processed "@ + decimal_spec(processed as nat) + " events"@,
{
    let p = decimal(usize_to_u64(processed));
    join(join("Processed ", p.as_str()).as_str(), " events")
}

} // verus!
