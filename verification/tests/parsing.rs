//! Tests of the parser and the label resolver.
use whitespace::parser::{parse, reduce_labels, try_parse, try_reduce_labels};
use whitespace::symbols::Action;

#[test]
fn parse_push_add_output_halt() {
    // push 5; push 3; add; output-number; halt
    let source = "   \t \t\n   \t\t\n\t   \t\n \t\n\n\n";
    let actions = try_parse(source).expect("complete program must parse");
    assert_eq!(
        actions,
        vec![
            Action::StackPush(5),
            Action::StackPush(3),
            Action::Add,
            Action::OutputNumber,
            Action::Halt,
        ]
    );
}

#[test]
fn parse_ignores_comment_characters() {
    // push 1; halt, with comment text between the significant characters
    let commented = "comment   X\tY\nZ\n\n\nEND";
    let plain = "   \t\n\n\n\n";
    let parsed = try_parse(commented);
    assert_eq!(parsed, try_parse(plain));
    assert_eq!(
        parsed.unwrap(),
        vec![Action::StackPush(1), Action::Halt]
    );
}

#[test]
fn parse_negative_number() {
    // push -3: space space, tab sign, bits 11, line break
    let actions = try_parse("  \t\t\t\n").unwrap();
    assert_eq!(actions, vec![Action::StackPush(-3)]);
}

#[test]
fn parse_empty_bit_run_is_zero() {
    // push with a sign and an empty bit run
    let actions = try_parse("   \n").unwrap();
    assert_eq!(actions, vec![Action::StackPush(0)]);
}

#[test]
fn parse_error_leaf_continues() {
    // space tab has no meaning; parsing goes on with the next instruction
    let actions = try_parse(" \t\n\n\n").unwrap();
    assert_eq!(actions, vec![Action::Error("Unexpected Tab"), Action::Halt]);
}

#[test]
fn parse_truncated_instruction_is_fatal() {
    assert_eq!(try_parse(" "), None);
    // number missing its sign token and run
    assert_eq!(try_parse("  "), None);
    // label run never terminated
    assert_eq!(try_parse("\n  \t\t"), None);
}

#[test]
fn parse_line_break_in_sign_position_is_fatal() {
    // push prefix, then a line break where the sign token must stand
    assert_eq!(try_parse("  \n"), None);
}

#[test]
fn parse_owned_string_entry_point() {
    let actions = parse(String::from("   \t\n\n\n\n"));
    assert_eq!(actions, vec![Action::StackPush(1), Action::Halt]);
}

#[test]
fn label_ids_distinguish_leading_zero_bits() {
    // label runs "space" and "tab space" must decode to different ids
    let a = try_parse("\n   \n").unwrap();
    let b = try_parse("\n  \t \n").unwrap();
    let id_a = match a[0] {
        Action::Label(l) => l,
        _ => panic!("expected a label definition"),
    };
    let id_b = match b[0] {
        Action::Label(l) => l,
        _ => panic!("expected a label definition"),
    };
    assert_eq!(id_a, 3);
    assert_eq!(id_b, 5);
    assert_ne!(id_a, id_b);
}

#[test]
fn equal_label_spellings_collide() {
    // the same run spelled in two places decodes to the same id
    let a = try_parse("\n  \t \t\n").unwrap();
    let b = try_parse("\n \t\t \t\n").unwrap();
    match (a[0], b[0]) {
        (Action::Label(x), Action::Call(y)) => assert_eq!(x, y),
        _ => panic!("expected a label definition and a call"),
    }
}

#[test]
fn reduce_rewrites_labels_to_indices() {
    let program = vec![
        Action::Call(3),
        Action::Halt,
        Action::Label(3),
        Action::EndSubroutine,
    ];
    let reduced = reduce_labels(program);
    assert_eq!(
        reduced,
        vec![Action::Call(2), Action::Halt, Action::EndSubroutine]
    );
}

#[test]
fn reduce_rewrites_every_flow_variant() {
    let program = vec![
        Action::Label(9),
        Action::Jump(9),
        Action::JumpIfZero(9),
        Action::JumpIfNegative(9),
        Action::Halt,
    ];
    let reduced = reduce_labels(program);
    assert_eq!(
        reduced,
        vec![
            Action::Jump(0),
            Action::JumpIfZero(0),
            Action::JumpIfNegative(0),
            Action::Halt,
        ]
    );
}

#[test]
fn reduce_undefined_label_is_refused() {
    let program = vec![Action::Jump(42), Action::Halt];
    assert_eq!(try_reduce_labels(&program), None);
}

#[test]
fn reduce_duplicate_label_last_definition_wins() {
    let program = vec![
        Action::Jump(3),
        Action::Label(3),
        Action::StackPush(1),
        Action::Label(3),
        Action::Halt,
    ];
    let reduced = try_reduce_labels(&program).unwrap();
    assert_eq!(
        reduced,
        vec![Action::Jump(2), Action::StackPush(1), Action::Halt]
    );
}

#[test]
fn round_trip_resolves_all_references() {
    let program = vec![
        Action::Call(7),
        Action::Label(7),
        Action::StackPush(1),
        Action::JumpIfZero(7),
        Action::Halt,
    ];
    let reduced = try_reduce_labels(&program).unwrap();
    for action in &reduced {
        match action {
            Action::Label(_) => panic!("no label definition may survive resolution"),
            Action::Call(t) | Action::Jump(t) | Action::JumpIfZero(t) | Action::JumpIfNegative(t) => {
                assert!((*t as usize) < reduced.len());
            }
            _ => {}
        }
    }
}
