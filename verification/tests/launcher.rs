use openquanter::cli::{
    absent, binary_for, crate_for, data_requested, requested, tools, DataRequest, Request,
};

#[test]
fn every_tool_names_the_crate_that_ships_it() {
    // A missing entry would produce "install it from None", which is
    // worse than no suggestion: it reads as a bug rather than as a
    // gap.
    for (name, _) in tools() {
        assert!(crate_for(name).is_some(), "{name} has no crate");
        assert!(binary_for(name).is_some(), "{name} has no binary");
    }
}

#[test]
fn a_tool_we_do_not_ship_is_not_invented() {
    assert_eq!(binary_for("mine-bitcoin"), None);
    assert_eq!(crate_for("mine-bitcoin"), None);
}

#[test]
fn the_binary_name_is_the_subcommand_with_one_prefix() {
    // The mapping is mechanical on purpose: a table of exceptions is
    // a table someone has to keep, and this one would be all
    // exceptions and no rule.
    assert_eq!(binary_for("capture").as_deref(), Some("oq-capture"));
    assert_eq!(binary_for("book-check").as_deref(), Some("oq-book-check"));
}

#[test]
fn the_list_has_no_duplicates() {
    let names: std::collections::HashSet<_> = tools().iter().map(|(n, _)| *n).collect();
    assert_eq!(names.len(), tools().len());
}

#[test]
fn every_tool_says_what_it_is_for() {
    // The list is documentation first. An entry without a description
    // is an entry that only helps someone who already knew.
    for (name, what) in tools() {
        assert!(what.len() > 20, "{name}: {what:?} is too short to help");
        assert!(
            !what.starts_with(name),
            "{name}: a description that repeats the name says nothing"
        );
    }
}

#[test]
fn an_absent_command_is_named_rather_than_merely_missing() {
    // Someone typing `oq backtest` read a plan that mentions it. "No
    // such tool" sends them looking for a typo; naming it and saying
    // why sends them to the thing that works.
    for (name, why) in absent() {
        assert!(
            binary_for(name).is_none(),
            "{name} is both present and absent"
        );
        assert!(why.len() > 15, "{name}: {why:?} does not explain anything");
    }
}

#[test]
fn nothing_is_both_shipped_and_absent() {
    let shipped: std::collections::HashSet<_> = tools().iter().map(|(n, _)| *n).collect();
    for (name, _) in absent() {
        assert!(!shipped.contains(&name), "{name} is in both lists");
    }
}

#[test]
fn the_new_tools_name_their_crates_too() {
    for name in ["data", "replay"] {
        assert!(crate_for(name).is_some(), "{name} has no crate");
        assert!(binary_for(name).is_some(), "{name} has no binary");
    }
    assert_eq!(crate_for("data"), Some("oq-data"));
    assert_eq!(crate_for("replay"), Some("oq-live"));
}

#[test]
fn the_first_word_decides_what_is_asked() {
    assert_eq!(requested(None), Request::List);
    for word in ["--help", "-h", "help"] {
        assert_eq!(requested(Some(word)), Request::List);
    }
    assert_eq!(requested(Some("--version")), Request::Version);
    assert_eq!(requested(Some("-V")), Request::Version);
    assert_eq!(
        requested(Some("capture")),
        Request::Run("oq-capture".to_string())
    );
    assert_eq!(requested(Some("backtest")), Request::Unknown);
}

#[test]
fn the_data_tool_wants_a_file_and_knows_where_to_export_it() {
    let ask = |words: &[&str]| {
        let args: Vec<String> = words.iter().map(|w| w.to_string()).collect();
        data_requested(&args)
    };
    assert_eq!(ask(&["oq-data"]), DataRequest::Nothing);
    assert_eq!(ask(&["oq-data", "--help"]), DataRequest::Help);
    assert_eq!(ask(&["oq-data", "a.oqtk", "--parquet"]), DataRequest::NoOutput);
    assert_eq!(
        ask(&["oq-data", "a.oqtk"]),
        DataRequest::Look {
            path: "a.oqtk".to_string(),
            export: None
        }
    );
    assert_eq!(
        ask(&["oq-data", "a.oqtk", "--parquet", "b.parquet"]),
        DataRequest::Look {
            path: "a.oqtk".to_string(),
            export: Some("b.parquet".to_string())
        }
    );
}
