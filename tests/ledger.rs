use chisel_gpt::command_response::{Command, CommandResponse};

fn feed_all(fragments: &[&str]) -> CommandResponse {
    let mut response = CommandResponse::new();
    for fragment in fragments {
        response.handle_next_stream_value(&fragment.to_string());
    }
    response
}

const REGION: &str = "##START##\ncontract Token {\nuint x;\n}\naddress a;\n##END##\n";

#[test]
fn char_by_char_matches_line_by_line() {
    let chars: Vec<String> = REGION.chars().map(|c| c.to_string()).collect();
    let char_refs: Vec<&str> = chars.iter().map(|s| s.as_str()).collect();
    let lines: Vec<&str> = REGION.split_inclusive('\n').collect();
    let by_char = feed_all(&char_refs);
    let by_line = feed_all(&lines);
    assert_eq!(by_char.commands, by_line.commands);
    assert_eq!(
        by_line.commands,
        vec![
            Command::Pending("contract Token {\nuint x;\n}\n".to_string()),
            Command::Pending("address a;\n".to_string())
        ]
    );
}

#[test]
fn uneven_fragments_match_line_by_line() {
    let pieces = ["##ST", "ART##\n", "contract Tok", "en {\n", "uint", " x;\n", "}\n", "address a;\n", "##END##\n"];
    assert_eq!(feed_all(&pieces).commands, feed_all(&REGION.split_inclusive('\n').collect::<Vec<_>>()).commands);
}

#[test]
fn whole_text_as_one_fragment_is_one_line() {
    let response = feed_all(&[REGION]);
    assert!(response.commands.is_empty());
}

#[test]
fn lines_outside_region_are_dropped() {
    let response = feed_all(&["address before;\n", "##START##\n", "address a;\n", "##END##\n", "address after;\n"]);
    assert_eq!(response.commands, vec![Command::Pending("address a;\n".to_string())]);
}

#[test]
fn end_marker_finishes_open_statement() {
    let mut response = CommandResponse::new();
    response.handle_next_stream_value(&"##START##\n".to_string());
    assert!(!response.handle_next_stream_value(&"contract A {\n".to_string()));
    assert!(response.handle_next_stream_value(&"##END##\n".to_string()));
    assert_eq!(response.commands, vec![Command::Pending("contract A {\n".to_string())]);
    assert!(response.current_command_lines.is_empty());
    assert!(!response.within_command_response);
}

#[test]
fn no_end_marker_keeps_partial_statement_unemitted() {
    let response = feed_all(&["##START##\n", "contract A {\n", "uint x;\n"]);
    assert!(response.commands.is_empty());
    assert_eq!(response.current_command_lines.len(), 2);
}

#[test]
fn blank_line_is_a_statement_of_its_own() {
    let response = feed_all(&["##START##\n", "\n", "address a;\n", "##END##\n"]);
    assert_eq!(
        response.commands,
        vec![Command::Pending("\n".to_string()), Command::Pending("address a;\n".to_string())]
    );
}

#[test]
fn end_marker_with_nothing_gathered_adds_nothing() {
    let response = feed_all(&["##START##\n", "address a;\n", "##END##\n"]);
    assert_eq!(response.commands.len(), 1);
}

#[test]
fn fragment_without_terminator_is_buffered() {
    let mut response = CommandResponse::new();
    assert!(!response.handle_next_stream_value(&"##STA".to_string()));
    assert_eq!(response.current_line, "##STA");
    response.handle_next_stream_value(&"RT##\n".to_string());
    assert!(response.within_command_response);
    assert_eq!(response.current_line, "");
}

#[test]
fn streamed_multiline_constructor_is_one_command() {
    let response = feed_all(&["##START##\n", "VRFExample vrf = new VRFExample(\n", "0x0,\n", "0x0\n", ");\n", "##END##\n"]);
    assert_eq!(
        response.commands,
        vec![Command::Pending("VRFExample vrf = new VRFExample(\n0x0,\n0x0\n);\n".to_string())]
    );
}

#[test]
fn handle_reports_when_command_added() {
    let mut response = CommandResponse::new();
    assert!(!response.handle_next_stream_value(&"##START##\n".to_string()));
    assert!(response.handle_next_stream_value(&"address a;\n".to_string()));
    assert!(!response.handle_next_stream_value(&"contract A {\n".to_string()));
    assert!(response.handle_next_stream_value(&"}\n".to_string()));
}

#[test]
fn dispatch_failure_does_not_stop_later_commands() {
    let mut response = feed_all(&["##START##\n", "address a;\n", "address b;\n", "address c;\n", "##END##\n"]);
    assert_eq!(response.next_pending(), Some(0));
    response.record_dispatch(0, true);
    assert_eq!(response.next_pending(), Some(1));
    response.record_dispatch(1, false);
    assert_eq!(response.next_pending(), Some(2));
    response.record_dispatch(2, true);
    assert_eq!(response.next_pending(), None);
    assert_eq!(
        response.commands,
        vec![
            Command::Complete("address a;\n".to_string()),
            Command::Errored("address b;\n".to_string()),
            Command::Complete("address c;\n".to_string())
        ]
    );
    assert_eq!(response.errored_commands(), vec![Command::Errored("address b;\n".to_string())]);
}

#[test]
fn settled_commands_are_not_dispatched_again() {
    let mut response = feed_all(&["##START##\n", "address a;\n", "##END##\n"]);
    response.record_dispatch(0, false);
    response.record_dispatch(0, true);
    assert_eq!(response.commands, vec![Command::Errored("address a;\n".to_string())]);
    response.record_dispatch(7, true);
    assert_eq!(response.commands.len(), 1);
    assert_eq!(response.next_pending(), None);
}

#[test]
fn success_drops_partial_statement() {
    let mut response = feed_all(&["##START##\n", "address a;\n", "contract A {\n"]);
    assert_eq!(response.current_command_lines.len(), 1);
    response.record_dispatch(0, true);
    assert!(response.current_command_lines.is_empty());
}

#[test]
fn new_commands_are_appended_in_finish_order() {
    let mut response = feed_all(&["##START##\n", "address a;\n"]);
    response.record_dispatch(0, false);
    response.handle_next_stream_value(&"address b;\n".to_string());
    assert_eq!(
        response.commands,
        vec![Command::Errored("address a;\n".to_string()), Command::Pending("address b;\n".to_string())]
    );
}

#[test]
fn other_marker_casing_opens_no_region() {
    let response = feed_all(&["##Start##\n", "address a;\n", "##End##\n"]);
    assert!(response.commands.is_empty());
    assert!(!response.within_command_response);
}

#[test]
fn streaming_and_batch_give_the_same_statements() {
    let text = "##START##\ncontract A {\nuint x;\n}\naddress a;\nfunction f() public {\nif (x) {\n} else {\n}\n}\n##END##\n";
    let streamed = feed_all(&text.split_inclusive('\n').collect::<Vec<_>>());
    let batch: Vec<Command> = chisel_gpt::split_commands::split_commands(text)
        .into_iter()
        .map(|s| Command::Pending(s + "\n"))
        .collect();
    assert_eq!(batch.len(), 3);
    assert_eq!(streamed.commands, batch);
}
