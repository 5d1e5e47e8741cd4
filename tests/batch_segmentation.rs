use chisel_gpt::split_commands::{format_current_line, process_lines, split_commands, Response};

#[test]
fn batch_contract_is_one_statement() {
    let input = "##START##\ncontract Token {\nstring public constant symbol = 'TKN';\n}\n##END##";
    assert_eq!(
        split_commands(input),
        vec!["contract Token {\nstring public constant symbol = 'TKN';\n}".to_string()]
    );
}

#[test]
fn batch_single_lines_are_separate_statements() {
    let input = "##START##\naddress owner = msg.sender;\naddress token1;\naddress token2;\n##END##";
    assert_eq!(
        split_commands(input),
        vec![
            "address owner = msg.sender;".to_string(),
            "address token1;".to_string(),
            "address token2;".to_string()
        ]
    );
}

#[test]
fn batch_contract_then_function() {
    let input = "##START##\n  contract Token {\n    string public constant symbol = 'TKN';\n  }\n  function test() external {\n    address owner = msg.sender;\n  }\n##END##";
    assert_eq!(
        split_commands(input),
        vec![
            "contract Token {\nstring public constant symbol = 'TKN';\n}".to_string(),
            "function test() external {\naddress owner = msg.sender;\n}".to_string()
        ]
    );
}

#[test]
fn batch_interface_then_contract() {
    let input = "##START##\ninterface IERC20 {\n}\n\ncontract LiquidityPool {\n}\n##END##";
    assert_eq!(
        split_commands(input),
        vec!["interface IERC20 {\n}".to_string(), "contract LiquidityPool {\n}".to_string()]
    );
}

#[test]
fn batch_nested_if_else_stays_one_statement() {
    let input = "##START##\ncontract LiquidityPool {\nfunction addLiquidity(uint256 _amount1, uint256 _amount2) public {\nif (reserve1 == 0 && reserve2 == 0) {\n} else {\n}\n}\n}\n##END##";
    let statements = split_commands(input);
    assert_eq!(statements.len(), 1);
    assert_eq!(
        statements[0],
        "contract LiquidityPool {\nfunction addLiquidity(uint256 _amount1, uint256 _amount2) public {\nif (reserve1 == 0 && reserve2 == 0) {\n} else {\n}\n}\n}"
    );
}

#[test]
fn batch_without_end_marker_has_no_statements() {
    let input = "##START##\naddress owner = msg.sender;\n";
    assert!(split_commands(input).is_empty());
}

#[test]
fn batch_without_start_marker_has_no_statements() {
    assert!(split_commands("address owner;\n##END##").is_empty());
}

#[test]
fn batch_end_before_start_has_no_statements() {
    assert!(split_commands("##END##\naddress owner;\n##START##").is_empty());
}

#[test]
fn batch_overlapping_markers_have_no_statements() {
    assert!(split_commands("##START##END##").is_empty());
}

#[test]
fn batch_multiline_constructor_is_one_statement() {
    let input = "##START##\nVRFExample vrf = new VRFExample(\n0x0,\n0x0\n);\n##END##";
    assert_eq!(
        split_commands(input),
        vec!["VRFExample vrf = new VRFExample(\n0x0,\n0x0\n);".to_string()]
    );
}

#[test]
fn batch_pragma_leaves_depth_alone() {
    let input = "##START##\ncontract A {\npragma solidity {\n}\n##END##";
    assert_eq!(split_commands(input), vec!["contract A {\npragma solidity {\n}".to_string()]);
}

#[test]
fn batch_unclosed_statement_is_dropped() {
    let input = "##START##\naddress a;\ncontract A {\n##END##";
    assert_eq!(split_commands(input), vec!["address a;".to_string()]);
}

#[test]
fn batch_stray_closing_brace_waits_for_balance() {
    let input = "##START##\n}\n{\naddress a;\n##END##";
    assert_eq!(split_commands(input), vec!["}\n{".to_string(), "address a;".to_string()]);
}

#[test]
fn format_line_complete_on_terminator() {
    let r = format_current_line("contract ", "A {\n");
    assert!(r.is_complete());
    let s: String = r.into();
    assert_eq!(s, "contract A {\n");
}

#[test]
fn format_line_incomplete_without_terminator() {
    let r = format_current_line("contr", "act");
    assert!(!r.is_complete());
    assert_eq!(String::from(r), "contract");
}

#[test]
fn process_lines_balanced_is_complete() {
    let mut lines = vec!["contract A {\n".to_string(), "}\n".to_string()];
    match process_lines(&mut lines) {
        Response::Complete(s) => assert_eq!(s, "contract A {\n}"),
        Response::Incomplete(_) => panic!("expected a complete statement"),
    }
    assert_eq!(lines.len(), 2);
}

#[test]
fn process_lines_open_brace_is_incomplete() {
    let mut lines = vec!["  contract A {\n".to_string(), "uint x;\n".to_string()];
    match process_lines(&mut lines) {
        Response::Incomplete(s) => assert_eq!(s, "contract A {\nuint x;"),
        Response::Complete(_) => panic!("expected an incomplete statement"),
    }
}

#[test]
fn process_lines_open_constructor_is_incomplete() {
    let mut lines = vec!["Pool p = new Pool(\n".to_string()];
    assert!(!process_lines(&mut lines).is_complete());
    lines.push("1, 2);\n".to_string());
    assert!(process_lines(&mut lines).is_complete());
}

#[test]
fn process_lines_depth_goes_negative() {
    let mut lines = vec!["}\n".to_string()];
    assert!(!process_lines(&mut lines).is_complete());
}

#[test]
fn other_marker_casing_is_not_a_region() {
    assert!(split_commands("##Start##\naddress a;\n##End##").is_empty());
    assert!(split_commands("##START##\naddress a;\n##End##").is_empty());
}

#[test]
fn backticks_are_kept_as_statement_text() {
    assert_eq!(
        split_commands("##START##\n`address a;`\n##END##"),
        vec!["`address a;`".to_string()]
    );
}

#[test]
fn pragma_line_alone_is_a_statement() {
    let input = "##START##\npragma solidity ^0.8.0;\naddress a;\n##END##";
    assert_eq!(
        split_commands(input),
        vec!["pragma solidity ^0.8.0;".to_string(), "address a;".to_string()]
    );
}
