//! One name for the tools.
//!
//! The launcher finds a tool and executes it, replacing itself. It does not
//! link the tools or read their arguments: what it adds is a list, a lookup,
//! and a message that names what is missing.
use crate::text::{copy_text, put, same};
use vstd::prelude::*;

verus! {

/// A name and what is said of it.
pub type Entry = (Seq<char>, Seq<char>);

/// What a list of names and sentences says.
pub open spec fn entries(list: Seq<(&'static str, &'static str)>) -> Seq<Entry> {
    list.map_values(|e: (&'static str, &'static str)| (e.0@, e.1@))
}

/// The tools, with what each is for, as a reader meets them: capture
/// something, check it, convert it, then trade.
pub open spec fn listed_tools() -> Seq<Entry> {
    seq![
        ("capture"@, "record a venue's streams to an archive, verbatim"@),
        ("book-check"@, "replay an archive into an order book and report breaks"@),
        ("trade-check"@, "follow a venue's own trade ids to prove nothing was missed"@),
        ("merge"@, "reconcile two archives of the same window"@),
        ("resequence"@, "put an archive damaged by two writers back in venue order"@),
        ("ingest"@, "convert an archive into the tick format a backtest reads"@),
        ("data"@, "characterise a tick file before a backtest trusts it"@),
        ("parity"@, "compare a run against a baseline, and say when the baseline expired"@),
        ("recon"@, "read a live account and say whether it matches expectations"@),
        ("order-check"@, "prove the order path works, against a testnet"@),
        ("trade"@, "run a strategy against a venue"@),
        ("replay"@, "read back what a live run decided, from its journal"@),
    ]
}

/// Commands that are deliberately absent, and why.
pub open spec fn listed_absences() -> Seq<Entry> {
    seq![
        ("backtest"@, "a strategy is compiled Rust; use `cargo run --example`"@),
        ("sweep"@, "same reason as backtest"@),
    ]
}

/// Whether a list names something.
pub open spec fn names(list: Seq<Entry>, name: Seq<char>) -> bool {
    exists|i: int| 0 <= i < list.len() && (#[trigger] list[i]).0 == name
}

/// The tools, with what each is for.
pub fn tools() -> (r: Vec<(&'static str, &'static str)>)
    ensures
        entries(r@) == listed_tools(),
{
    let r = vec![
        ("capture", "record a venue's streams to an archive, verbatim"),
        ("book-check", "replay an archive into an order book and report breaks"),
        ("trade-check", "follow a venue's own trade ids to prove nothing was missed"),
        ("merge", "reconcile two archives of the same window"),
        ("resequence", "put an archive damaged by two writers back in venue order"),
        ("ingest", "convert an archive into the tick format a backtest reads"),
        ("data", "characterise a tick file before a backtest trusts it"),
        ("parity", "compare a run against a baseline, and say when the baseline expired"),
        ("recon", "read a live account and say whether it matches expectations"),
        ("order-check", "prove the order path works, against a testnet"),
        ("trade", "run a strategy against a venue"),
        ("replay", "read back what a live run decided, from its journal"),
    ];
    assert(entries(r@) =~= listed_tools());
    r
}

/// Commands that are deliberately absent, and why. A strategy is compiled
/// code, so running one from a command line needs a boundary that does not
/// exist.
pub fn absent() -> (r: Vec<(&'static str, &'static str)>)
    ensures
        entries(r@) == listed_absences(),
{
    let r = vec![
        ("backtest", "a strategy is compiled Rust; use `cargo run --example`"),
        ("sweep", "same reason as backtest"),
    ];
    assert(entries(r@) =~= listed_absences());
    r
}

/// The binary implementing `name`, if it is one of the tools.
pub fn binary_for(name: &str) -> (r: Option<String>)
    ensures
        r is Some <==> names(listed_tools(), name@),
        r matches Some(binary) ==> binary@ == "oq-"@ + name@,
{
    let list = tools();
    let mut i: usize = 0;
    while i < list.len()
        invariant
            i <= list@.len(),
            entries(list@) == listed_tools(),
            forall|k: int| 0 <= k < i ==> (#[trigger] listed_tools()[k]).0 != name@,
        decreases list@.len() - i,
    {
        assert(entries(list@)[i as int] == (list@[i as int].0@, list@[i as int].1@));
        if same(list[i].0, name) {
            assert(listed_tools()[i as int].0 == name@);
            let mut binary = "oq-".to_owned();
            put(&mut binary, name);
            return Some(binary);
        }
        i += 1;
    }
    assert(list@.len() == entries(list@).len());
    None
}

/// The crate that ships a tool.
pub open spec fn shipped_by(name: Seq<char>) -> Option<Seq<char>> {
    if name == "capture"@ || name == "book-check"@ || name == "trade-check"@ || name == "merge"@
        || name == "resequence"@ {
        Some("oq-l2feed"@)
    } else if name == "ingest"@ {
        Some("oq-ingest"@)
    } else if name == "parity"@ {
        Some("oq-parity"@)
    } else if name == "recon"@ || name == "order-check"@ {
        Some("oq-gateway"@)
    } else if name == "data"@ {
        Some("oq-data"@)
    } else if name == "trade"@ || name == "replay"@ {
        Some("oq-live"@)
    } else {
        None
    }
}

/// The crate that ships `name`, for an error message that can be acted on.
pub fn crate_for(name: &str) -> (r: Option<&'static str>)
    ensures
        match r {
            Some(k) => shipped_by(name@) == Some(k@),
            None => shipped_by(name@) is None,
        },
{
    if same(name, "capture") || same(name, "book-check") || same(name, "trade-check") || same(
        name,
        "merge",
    ) || same(name, "resequence") {
        Some("oq-l2feed")
    } else if same(name, "ingest") {
        Some("oq-ingest")
    } else if same(name, "parity") {
        Some("oq-parity")
    } else if same(name, "recon") || same(name, "order-check") {
        Some("oq-gateway")
    } else if same(name, "data") {
        Some("oq-data")
    } else if same(name, "trade") || same(name, "replay") {
        Some("oq-live")
    } else {
        None
    }
}

/// What the launcher was asked for.
#[derive(Debug, PartialEq, Eq)]
pub enum Request {
    /// The list of tools.
    List,
    /// The launcher's own version.
    Version,
    /// A tool, by the binary that implements it.
    Run(String),
    /// Something that is no tool.
    Unknown,
}

/// Whether a word asks for help.
pub open spec fn asks_for_help(word: Seq<char>) -> bool {
    word == "--help"@ || word == "-h"@ || word == "help"@
}

/// Whether a word asks for the version.
pub open spec fn asks_for_version(word: Seq<char>) -> bool {
    word == "--version"@ || word == "-V"@
}

/// What the launcher's first argument asks for.
pub fn requested(first: Option<&str>) -> (r: Request)
    ensures
        match first {
            None => r is List,
            Some(word) => if asks_for_help(word@) {
                r is List
            } else if asks_for_version(word@) {
                r is Version
            } else if names(listed_tools(), word@) {
                r matches Request::Run(binary) && binary@ == "oq-"@ + word@
            } else {
                r is Unknown
            },
        },
{
    match first {
        None => Request::List,
        Some(word) => if same(word, "--help") || same(word, "-h") || same(word, "help") {
            Request::List
        } else if same(word, "--version") || same(word, "-V") {
            Request::Version
        } else {
            match binary_for(word) {
                Some(binary) => Request::Run(binary),
                None => Request::Unknown,
            }
        },
    }
}

/// What the data tool was asked for.
#[derive(Debug, PartialEq, Eq)]
pub enum DataRequest {
    /// How to use it, because nothing was asked.
    Nothing,
    /// How to use it, because that was asked.
    Help,
    /// An export, but not where to.
    NoOutput,
    /// A look at a file, and perhaps an export of it.
    Look { path: String, export: Option<String> },
}

/// Where a word first stands among arguments; their number if it does not.
pub open spec fn word_at(args: Seq<Seq<char>>, word: Seq<char>) -> int
    decreases args.len(),
{
    if args.len() == 0 || args[0] == word {
        0
    } else {
        1 + word_at(args.drop_first(), word)
    }
}

/// Arguments as sequences of characters.
pub open spec fn words(args: Seq<String>) -> Seq<Seq<char>> {
    args.map_values(|a: String| a@)
}

fn find_word(args: &Vec<String>, word: &str) -> (r: usize)
    ensures
        r == word_at(words(args@), word@),
        r <= args@.len(),
{
    let ghost all = words(args@);
    let n: usize = args.len();
    let mut i: usize = 0;
    assert(all.subrange(0, n as int) =~= all);
    while i < n && !same(args[i].as_str(), word)
        invariant
            i <= n,
            n == args@.len(),
            all == words(args@),
            word_at(all, word@) == i + word_at(all.subrange(i as int, n as int), word@),
        decreases n - i,
    {
        assert(all.subrange(i as int, n as int).drop_first() =~= all.subrange(i + 1, n as int));
        assert(all[i as int] == args@[i as int]@);
        i += 1;
    }
    if i < n {
        assert(all.subrange(i as int, n as int)[0] == args@[i as int]@);
    }
    i
}

/// What the data tool's arguments ask for, the tool's own name among them.
pub fn data_requested(args: &Vec<String>) -> (r: DataRequest)
    ensures
        ({
            let w = words(args@);
            let flag = word_at(w, "--parquet"@);
            if w.len() < 2 {
                r is Nothing
            } else if w[1] == "--help"@ || w[1] == "-h"@ {
                r is Help
            } else if flag < w.len() && flag + 1 >= w.len() {
                r is NoOutput
            } else {
                r matches DataRequest::Look { path, export } && path@ == w[1] && (match export {
                    Some(out) => flag + 1 < w.len() && out@ == w[flag + 1],
                    None => flag == w.len(),
                })
            }
        }),
{
    if args.len() < 2 {
        return DataRequest::Nothing;
    }
    assert(words(args@)[1] == args@[1]@);
    if same(args[1].as_str(), "--help") || same(args[1].as_str(), "-h") {
        return DataRequest::Help;
    }
    let flag: usize = find_word(args, "--parquet");
    let export = if flag < args.len() {
        if flag + 1 >= args.len() {
            return DataRequest::NoOutput;
        }
        assert(words(args@)[flag + 1] == args@[flag + 1]@);
        Some(copy_text(&args[flag + 1]))
    } else {
        None
    };
    DataRequest::Look { path: copy_text(&args[1]), export }
}

/// Every tool names the crate that ships it, and nothing else does.
pub proof fn law_every_tool_is_shipped(name: Seq<char>)
    ensures
        names(listed_tools(), name) == (shipped_by(name) is Some),
{
    let list = listed_tools();
    if shipped_by(name) is Some {
        assert(list[0].0 == "capture"@ && list[1].0 == "book-check"@ && list[2].0
            == "trade-check"@ && list[3].0 == "merge"@ && list[4].0 == "resequence"@ && list[5].0
            == "ingest"@ && list[6].0 == "data"@ && list[7].0 == "parity"@ && list[8].0
            == "recon"@ && list[9].0 == "order-check"@ && list[10].0 == "trade"@ && list[11].0
            == "replay"@);
    }
}

/// Nothing is both shipped and absent.
pub proof fn law_nothing_is_both_shipped_and_absent(name: Seq<char>)
    requires
        names(listed_absences(), name),
    ensures
        !names(listed_tools(), name),
{
    reveal_strlit("backtest");
    reveal_strlit("sweep");
    reveal_strlit("capture");
    reveal_strlit("book-check");
    reveal_strlit("trade-check");
    reveal_strlit("merge");
    reveal_strlit("resequence");
    reveal_strlit("ingest");
    reveal_strlit("data");
    reveal_strlit("parity");
    reveal_strlit("recon");
    reveal_strlit("order-check");
    reveal_strlit("trade");
    reveal_strlit("replay");
    let absences = listed_absences();
    let i = choose|i: int| 0 <= i < absences.len() && (#[trigger] absences[i]).0 == name;
    assert(name == "backtest"@ || name == "sweep"@);
    assert("backtest"@.len() == 8 && "sweep"@.len() == 5 && "sweep"@[0] == 's');
    assert("merge"@[0] == 'm' && "recon"@[0] == 'r' && "trade"@[0] == 't');
    law_every_tool_is_shipped(name);
}

} // verus!
