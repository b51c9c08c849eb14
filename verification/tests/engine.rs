use command_reminder::codec::{parse, serialize};
use command_reminder::invoker::prepare_command;
use command_reminder::matcher::find_matching_commands;
use command_reminder::merger::merge_keyword_line;
use command_reminder::store::{
    add_new_command, add_to_preexisting_command, do_add, do_remove, do_search, merge_confirmed,
    merge_keywords, removal_candidates, remove_confirmed, validate_removals, AddOutcome,
    SearchOutcome, StoreError,
};
use command_reminder::text::split_bytes;

fn lines(v: &[&str]) -> Vec<Vec<u8>> {
    v.iter().map(|s| s.as_bytes().to_vec()).collect()
}

fn bytes(s: &str) -> Vec<u8> {
    s.as_bytes().to_vec()
}

fn tokens(line: &[u8]) -> Vec<Vec<u8>> {
    split_bytes(&line.to_vec(), 32)
}

fn same_token_set(a: &[Vec<u8>], b: &[&str]) -> bool {
    let b: Vec<Vec<u8>> = b.iter().map(|s| s.as_bytes().to_vec()).collect();
    a.iter().all(|t| b.contains(t)) && b.iter().all(|t| a.contains(t))
}

#[test]
fn parse_empty_text_is_empty_store() {
    assert_eq!(parse(&Vec::new()).len(), 0);
}

#[test]
fn parse_splits_lines_and_drops_trailing_newline() {
    let got = parse(&bytes("# list files\nls -la\n"));
    assert_eq!(got, lines(&["# list files", "ls -la"]));
}

#[test]
fn parse_without_trailing_newline() {
    let got = parse(&bytes("# a\nls"));
    assert_eq!(got, lines(&["# a", "ls"]));
}

#[test]
fn serialize_joins_with_trailing_newline() {
    let text = serialize(&lines(&["# a", "ls", "# b", "pwd"]));
    assert_eq!(text, bytes("# a\nls\n# b\npwd\n"));
}

#[test]
fn serialize_empty_store_is_empty_text() {
    assert_eq!(serialize(&Vec::new()), Vec::<u8>::new());
}

#[test]
fn round_trip_text_to_lines_to_text() {
    let text = bytes("# list files\nls -la\n# disk\ndf -h\n");
    assert_eq!(serialize(&parse(&text)), text);
}

#[test]
fn round_trip_lines_to_text_to_lines() {
    let store = lines(&["# one", "echo 1", "# two", "echo 2"]);
    assert_eq!(parse(&serialize(&store)), store);
}

#[test]
fn matcher_matches_keyword_as_substring() {
    let store = lines(&["# foobar baz", "ls"]);
    let got = find_matching_commands(&store, &lines(&["foo"]));
    assert_eq!(got, vec![1]);
}

#[test]
fn matcher_matches_any_of_the_keywords() {
    let store = lines(&["# alpha beta", "ls"]);
    assert_eq!(find_matching_commands(&store, &lines(&["x", "beta"])), vec![1]);
    assert_eq!(find_matching_commands(&store, &lines(&["alpha", "y"])), vec![1]);
    assert_eq!(find_matching_commands(&store, &lines(&["x", "y"])).len(), 0);
}

#[test]
fn matcher_needs_the_marker() {
    let store = lines(&["# files", "ls files"]);
    let got = find_matching_commands(&store, &lines(&["files"]));
    assert_eq!(got, vec![1]);
}

#[test]
fn matcher_keeps_store_order() {
    let store = lines(&["# disk", "df", "# files", "ls", "# disk space", "du"]);
    let got = find_matching_commands(&store, &lines(&["disk"]));
    assert_eq!(got, vec![1, 5]);
}

#[test]
fn merge_unions_keyword_sets() {
    let merged = merge_keyword_line(&bytes("# list files"), &bytes("dir"));
    let toks = tokens(&merged);
    assert_eq!(toks[0], bytes("#"));
    assert!(same_token_set(&toks[1..], &["list", "files", "dir"]));
}

#[test]
fn merge_never_duplicates_tokens() {
    let merged = merge_keyword_line(&bytes("# list files"), &bytes("files list"));
    let toks = tokens(&merged);
    assert_eq!(toks[0], bytes("#"));
    assert!(same_token_set(&toks[1..], &["list", "files"]));
    assert_eq!(toks.len(), 3);
}

#[test]
fn merge_keeps_marker_once_and_first() {
    let merged = merge_keyword_line(&bytes("# a"), &bytes("# b"));
    let toks = tokens(&merged);
    assert_eq!(toks[0], bytes("#"));
    assert_eq!(toks.iter().filter(|t| **t == bytes("#")).count(), 1);
    assert!(same_token_set(&toks[1..], &["a", "b"]));
}

#[test]
fn merge_own_keywords_back_is_idempotent() {
    let once = merge_keyword_line(&bytes("# list files"), &bytes("dir"));
    let twice = merge_keyword_line(&once, &bytes("dir"));
    assert!(same_token_set(&tokens(&twice)[1..], &["list", "files", "dir"]));
    assert_eq!(tokens(&twice).len(), tokens(&once).len());
    assert_eq!(tokens(&twice)[0], bytes("#"));
}

#[test]
fn add_rejects_blank_command() {
    let store: Vec<Vec<u8>> = Vec::new();
    assert!(matches!(
        do_add(&store, &bytes("   "), &bytes("k")),
        Err(StoreError::EmptyCommand)
    ));
    assert!(matches!(
        do_add(&store, &bytes(""), &bytes("k")),
        Err(StoreError::EmptyCommand)
    ));
}

#[test]
fn add_rejects_unicode_whitespace_command() {
    let store: Vec<Vec<u8>> = Vec::new();
    // No-break space alone, an em space, and a mixed run all trim to nothing.
    assert!(matches!(
        do_add(&store, &bytes("\u{00A0}"), &bytes("k")),
        Err(StoreError::EmptyCommand)
    ));
    assert!(matches!(
        do_add(&store, &bytes("\u{2003}\u{2003}"), &bytes("k")),
        Err(StoreError::EmptyCommand)
    ));
    assert!(matches!(
        do_add(&store, &bytes(" \t\u{00A0}\u{3000}\u{2028}"), &bytes("k")),
        Err(StoreError::EmptyCommand)
    ));
}

#[test]
fn add_accepts_non_whitespace_multibyte_command() {
    let store: Vec<Vec<u8>> = Vec::new();
    assert!(matches!(
        do_add(&store, &bytes("\u{00A0}ls\u{00A0}"), &bytes("k")),
        Ok(AddOutcome::Updated { .. })
    ));
    assert!(matches!(
        do_add(&store, &bytes("\u{00E9}"), &bytes("k")),
        Ok(AddOutcome::Updated { .. })
    ));
}

#[test]
fn merge_prompt_failure_leaves_store_unchanged() {
    assert!(!merge_confirmed(None));
    assert!(merge_confirmed(Some(true)));
    assert!(!merge_confirmed(Some(false)));
}

#[test]
fn remove_prompt_failure_counts_as_yes() {
    assert!(remove_confirmed(None));
    assert!(remove_confirmed(Some(true)));
    assert!(!remove_confirmed(Some(false)));
}

#[test]
fn add_new_command_appends_one_record() {
    let store = lines(&["# old", "pwd"]);
    let out = add_new_command(&store, &bytes("ls -la"), &bytes("list files"));
    assert_eq!(out, lines(&["# old", "pwd", "# list files", "ls -la"]));
}

#[test]
fn add_unknown_command_appends() {
    let store = lines(&["# old", "pwd"]);
    match do_add(&store, &bytes("ls -la"), &bytes("list files")) {
        Ok(AddOutcome::Updated { lines: out }) => {
            assert_eq!(out, lines(&["# old", "pwd", "# list files", "ls -la"]));
        }
        _ => panic!("expected an appended record"),
    }
}

#[test]
fn add_existing_command_asks_to_merge() {
    let store = lines(&["# list files", "ls -la"]);
    match do_add(&store, &bytes("ls -la"), &bytes("dir")) {
        Ok(AddOutcome::MergePrompt { command_line }) => assert_eq!(command_line, 1),
        _ => panic!("expected the merge prompt"),
    }
}

#[test]
fn add_to_preexisting_approved_merges_in_place() {
    let store = lines(&["# list files", "ls -la", "# other", "pwd"]);
    let out = add_to_preexisting_command(&store, 1, &bytes("dir"), true);
    assert_eq!(out.len(), store.len());
    assert_eq!(out[1], bytes("ls -la"));
    assert_eq!(out[2], bytes("# other"));
    assert_eq!(out[3], bytes("pwd"));
    let toks = tokens(&out[0]);
    assert_eq!(toks[0], bytes("#"));
    assert!(same_token_set(&toks[1..], &["list", "files", "dir"]));
}

#[test]
fn add_to_preexisting_declined_changes_nothing() {
    let store = lines(&["# list files", "ls -la"]);
    let out = add_to_preexisting_command(&store, 1, &bytes("dir"), false);
    assert_eq!(out, store);
}

#[test]
fn merge_keywords_touches_only_the_keyword_line() {
    let store = lines(&["# a", "x", "# b", "y"]);
    let out = merge_keywords(&store, 3, &bytes("c"));
    assert_eq!(out[0], bytes("# a"));
    assert_eq!(out[1], bytes("x"));
    assert_eq!(out[3], bytes("y"));
    assert!(same_token_set(&tokens(&out[2])[1..], &["b", "c"]));
}

#[test]
fn remove_deletes_the_pair() {
    let store = lines(&["# a", "x", "# b", "y", "# c", "z"]);
    let out = do_remove(&store, &vec![3]);
    assert_eq!(out, lines(&["# a", "x", "# c", "z"]));
}

#[test]
fn remove_shrinks_by_two_per_confirmation() {
    let store = lines(&["# a", "x", "# b", "y", "# c", "z"]);
    let out = do_remove(&store, &vec![1, 5]);
    assert_eq!(out, lines(&["# b", "y"]));
    assert_eq!(out.len(), store.len() - 4);
}

#[test]
fn remove_with_no_confirmations_changes_nothing() {
    let store = lines(&["# a", "x"]);
    assert_eq!(do_remove(&store, &Vec::new()), store);
}

#[test]
fn validate_removals_accepts_disjoint_ascending_pairs() {
    assert!(validate_removals(&vec![1, 3, 5], 6));
}

#[test]
fn validate_removals_rejects_overlap_and_range() {
    assert!(!validate_removals(&vec![1, 2], 6));
    assert!(!validate_removals(&vec![3, 1], 6));
    assert!(!validate_removals(&vec![0], 6));
    assert!(!validate_removals(&vec![6], 6));
}

#[test]
fn removal_candidates_without_search_terms_is_empty() {
    let store = lines(&["# a", "x"]);
    assert_eq!(removal_candidates(&store, &Vec::new()).len(), 0);
}

#[test]
fn removal_candidates_splits_keywords_on_spaces() {
    let store = lines(&["# a", "x", "# b", "y"]);
    assert_eq!(removal_candidates(&store, &bytes("b a")), vec![1, 3]);
}

#[test]
fn search_with_no_match_reports_none() {
    let store = lines(&["# a", "x"]);
    assert!(matches!(
        do_search(&store, &lines(&["zzz"])),
        Ok(SearchOutcome::NoMatches)
    ));
}

#[test]
fn search_with_one_match_offers_the_command() {
    let store = lines(&["# a", "x", "# b", "y"]);
    match do_search(&store, &lines(&["b"])) {
        Ok(SearchOutcome::Single { command_line, command }) => {
            assert_eq!(command_line, 3);
            assert_eq!(command, bytes("y"));
        }
        _ => panic!("expected a single match"),
    }
}

#[test]
fn search_with_many_matches_offers_the_list() {
    let store = lines(&["# disk", "df", "# files", "ls", "# disk space", "du"]);
    match do_search(&store, &lines(&["disk"])) {
        Ok(SearchOutcome::Multiple { commands }) => {
            assert_eq!(commands, lines(&["df", "du"]));
        }
        _ => panic!("expected several matches"),
    }
}

#[test]
fn search_on_corrupt_store_reports_malformed() {
    let store = lines(&["# a", "x", "# b"]);
    assert!(matches!(
        do_search(&store, &lines(&["b"])),
        Err(StoreError::MalformedStore)
    ));
}

#[test]
fn prepare_splits_program_and_arguments() {
    let inv = prepare_command(&bytes("ls -la /tmp"));
    assert_eq!(inv.program, bytes("ls"));
    assert_eq!(inv.args, lines(&["-la", "/tmp"]));
}

#[test]
fn prepare_guards_program_without_arguments() {
    let inv = prepare_command(&bytes("ls"));
    assert_eq!(inv.program, bytes("ls"));
    assert_eq!(inv.args.len(), 0);
}

#[test]
fn prepare_keeps_empty_argument_after_trailing_space() {
    let inv = prepare_command(&bytes("ls "));
    assert_eq!(inv.program, bytes("ls"));
    assert_eq!(inv.args, lines(&[""]));
}

#[test]
fn end_to_end_scenario() {
    // Empty store; add a first command.
    let store: Vec<Vec<u8>> = Vec::new();
    let store = match do_add(&store, &bytes("ls -la"), &bytes("list files")) {
        Ok(AddOutcome::Updated { lines }) => lines,
        _ => panic!("expected an appended record"),
    };
    assert_eq!(serialize(&store), bytes("# list files\nls -la\n"));

    // A search for "list" finds the one command; running it splits it.
    let command = match do_search(&store, &lines(&["list"])) {
        Ok(SearchOutcome::Single { command, .. }) => command,
        _ => panic!("expected a single match"),
    };
    let inv = prepare_command(&command);
    assert_eq!(inv.program, bytes("ls"));
    assert_eq!(inv.args, lines(&["-la"]));

    // Re-adding the command under "dir" merges keywords; one record stays.
    let command_line = match do_add(&store, &bytes("ls -la"), &bytes("dir")) {
        Ok(AddOutcome::MergePrompt { command_line }) => command_line,
        _ => panic!("expected the merge prompt"),
    };
    let store = add_to_preexisting_command(&store, command_line, &bytes("dir"), true);
    assert_eq!(store.len(), 2);
    assert_eq!(store[1], bytes("ls -la"));
    assert!(same_token_set(&tokens(&store[0])[1..], &["list", "files", "dir"]));

    // Removing by "dir" empties the store again.
    let candidates = removal_candidates(&store, &bytes("dir"));
    assert_eq!(candidates, vec![1]);
    assert!(validate_removals(&candidates, store.len()));
    let store = do_remove(&store, &candidates);
    assert_eq!(store.len(), 0);
    assert_eq!(serialize(&store), Vec::<u8>::new());
}
