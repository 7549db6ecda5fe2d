use zellij_command_hook::document::parse_document;
use zellij_command_hook::document::serialize_doc;
use zellij_command_hook::document::Document;
use zellij_command_hook::kdl::build_simplified_pane;
use zellij_command_hook::kdl::process_kdl_content;

#[test]
fn scenario_plain_tab_editor_pane() {
    // a verbose editor launch in a plain tab becomes `nvim <file>`
    let input = "pane command=\"/usr/bin/nvim\" {\n    args \"--cmd\" \"lua init=1\" \"a.txt\"\n}\n";
    let (result, changes) = process_kdl_content(input);
    assert_eq!(result, "pane command=\"nvim\" {\n    args \"a.txt\"\n}\n");
    assert_eq!(changes.len(), 1);
    assert_eq!(changes[0].original_command, "/usr/bin/nvim --cmd lua init=1 a.txt");
    assert_eq!(changes[0].simplified_command, "nvim a.txt");
}

#[test]
fn scenario_direnv_tab_plain_pane() {
    // a pane inside a `dr ` tab is wrapped in the launcher
    let input = "tab name=\"dr proj\" {\n    pane command=\"bacon\" {}\n}\n";
    let (result, changes) = process_kdl_content(input);
    assert_eq!(
        result,
        "tab name=\"dr proj\" {\n    pane command=\"direnv\" { args \"exec\" \".\" \"bacon\" }\n}\n"
    );
    assert_eq!(changes.len(), 1);
    assert_eq!(changes[0].original_command, "bacon");
    assert_eq!(changes[0].simplified_command, "direnv exec . bacon");
}

#[test]
fn scenario_direnv_tab_already_wrapped() {
    // a pane already running `direnv` is left alone, with no change record
    let input = "tab name=\"dr x\" {\n    pane command=\"direnv\" {\n        args \"exec\" \".\" \"nvim\" \"f.rs\"\n    }\n}\n";
    let (result, changes) = process_kdl_content(input);
    assert_eq!(result, input);
    assert_eq!(changes.len(), 0);
}

#[test]
fn scenario_empty_args_removed() {
    // an editor pane with an empty args child loses the child entirely
    let input = "pane command=\"/usr/bin/nvim\" { args }\n";
    let (result, changes) = process_kdl_content(input);
    assert_eq!(result, "pane command=\"nvim\" { }\n");
    assert!(!result.contains("args"));
    assert_eq!(changes.len(), 1);
}

#[test]
fn idempotent_on_nvim_output() {
    let input = "pane command=\"/usr/bin/nvim\" {\n    args \"--cmd\" \"lua init=1\" \"a.txt\"\n}\n";
    let (once, changes1) = process_kdl_content(input);
    assert_eq!(changes1.len(), 1);
    let (twice, changes2) = process_kdl_content(&once);
    assert_eq!(changes2.len(), 0);
    assert_eq!(twice, once);
}

#[test]
fn idempotent_on_direnv_output() {
    let input = "tab name=\"dr proj\" {\n    pane command=\"bacon\" {}\n    pane command=\"/usr/bin/nvim\" {\n        args \"b.rs\"\n    }\n}\n";
    let (once, changes1) = process_kdl_content(input);
    assert_eq!(changes1.len(), 2);
    let (twice, changes2) = process_kdl_content(&once);
    assert_eq!(changes2.len(), 0);
    assert_eq!(twice, once);
}

#[test]
fn direnv_scope_is_per_tab() {
    // only panes under a tab named `dr ...` are wrapped; a sibling tab
    // without the prefix is untouched, at any pane nesting depth
    let input = "tab name=\"dr work\" {\n    pane {\n        pane command=\"bacon\" {}\n    }\n}\ntab name=\"other\" {\n    pane command=\"bacon\" {}\n}\n";
    let (result, changes) = process_kdl_content(input);
    assert_eq!(
        result,
        "tab name=\"dr work\" {\n    pane {\n        pane command=\"direnv\" { args \"exec\" \".\" \"bacon\" }\n    }\n}\ntab name=\"other\" {\n    pane command=\"bacon\" {}\n}\n"
    );
    assert_eq!(changes.len(), 1);
}

#[test]
fn direnv_wraps_editor_command() {
    // under the flag an editor command is simplified, then wrapped
    let input = "tab name=\"dr p\" {\n    pane command=\"/usr/bin/nvim\" {\n        args \"--cmd\" \"lua a=1\" \"m.rs\"\n    }\n}\n";
    let (result, changes) = process_kdl_content(input);
    assert!(result.contains("command=\"direnv\""));
    assert!(result.contains("args \"exec\" \".\" \"nvim\" \"m.rs\""));
    assert_eq!(changes.len(), 1);
    assert_eq!(changes[0].simplified_command, "direnv exec . nvim m.rs");
}

#[test]
fn unparseable_text_is_returned_unchanged() {
    for input in [
        "pane command=\"unterminated",
        "} stray brace",
        "pane { never closed",
        "= { }",
    ] {
        let (result, changes) = process_kdl_content(input);
        assert_eq!(result, input);
        assert_eq!(changes.len(), 0);
    }
}

#[test]
fn untouched_parts_are_byte_stable() {
    // nodes the transform has no business with survive byte for byte
    let input = "layout {\n    tab name=\"ops\" {\n        pane command=\"htop\" {\n            start_suspended true\n        }\n    }\n}\n";
    let (result, changes) = process_kdl_content(input);
    assert_eq!(result, input);
    assert_eq!(changes.len(), 0);
}

#[test]
fn direnv_pane_without_block_gets_one() {
    // a pane with no child block at all gains one to hold the new args
    let input = "tab name=\"dr a\" {\n    pane command=\"bacon\"\n}\n";
    let (result, changes) = process_kdl_content(input);
    assert_eq!(
        result,
        "tab name=\"dr a\" {\n    pane command=\"direnv\" { args \"exec\" \".\" \"bacon\" }\n}\n"
    );
    assert_eq!(changes.len(), 1);
}

#[test]
fn named_entries_in_args_are_dropped_on_rewrite() {
    // only positional values survive a rewrite of the args child
    let input = "pane command=\"/usr/bin/nvim\" {\n    args \"x.rs\" note=\"keep?\"\n}\n";
    let (result, changes) = process_kdl_content(input);
    assert_eq!(result, "pane command=\"nvim\" {\n    args \"x.rs\"\n}\n");
    assert_eq!(changes.len(), 1);
}

#[test]
fn parse_then_serialize_round_trips() {
    let input = "tab name=\"t\" {\n  pane command=\"x\" size=\"50%\" focus=true {\n    args \"a\" \"b\"\n  }\n}\n";
    let doc = parse_document(input).expect("input is in the grammar");
    assert_eq!(serialize_doc(&doc), input);
}

#[test]
fn build_simplified_pane_rewrites_in_place() {
    let input = "pane command=\"/usr/bin/nvim\" focus=true {\n    args \"old.rs\"\n    start_suspended true\n}";
    let doc = parse_document(input).expect("input is in the grammar");
    let pane = doc.nodes.into_iter().next().expect("one pane");
    let files = vec!["new.rs".to_string()];
    let built = build_simplified_pane(pane, "nvim", &files);
    let out = serialize_doc(&Document {
        nodes: vec![built],
        trailing: String::new(),
    });
    assert_eq!(
        out,
        "pane command=\"nvim\" focus=true {\n    args \"new.rs\"\n    start_suspended true\n}"
    );
}
