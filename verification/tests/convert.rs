use fixit::{can_convert, convert, BinaryOperator, ConvertError, InfixToken, PostfixToken};

#[derive(Debug, PartialEq, Eq)]
enum TestBinaryOp {
    Add,
    Sub,
    Mul,
    Div,
}

impl BinaryOperator for TestBinaryOp {
    // The precedence as the contracts name it: the value that `precedence` returns.
    fn precedence_spec(&self) -> u8 {
        self.precedence()
    }

    fn precedence(&self) -> u8 {
        match self {
            TestBinaryOp::Add => 1,
            TestBinaryOp::Sub => 1,
            TestBinaryOp::Mul => 2,
            TestBinaryOp::Div => 2,
        }
    }
}

type Infix = InfixToken<&'static str, TestBinaryOp>;
type Postfix = PostfixToken<&'static str, TestBinaryOp>;

#[test]
fn test_ok_1() {
    let infix_tokens = vec![
        InfixToken::Operand("m"),
        InfixToken::BinaryOp(TestBinaryOp::Mul),
        InfixToken::Operand("n"),
        InfixToken::BinaryOp(TestBinaryOp::Add),
        InfixToken::GroupStart,
        InfixToken::Operand("p"),
        InfixToken::BinaryOp(TestBinaryOp::Sub),
        InfixToken::Operand("q"),
        InfixToken::GroupEnd,
        InfixToken::BinaryOp(TestBinaryOp::Add),
        InfixToken::Operand("r"),
    ];

    assert_eq!(
        convert(infix_tokens).unwrap(),
        vec![
            PostfixToken::Operand("m"),
            PostfixToken::Operand("n"),
            PostfixToken::BinaryOp(TestBinaryOp::Mul),
            PostfixToken::Operand("p"),
            PostfixToken::Operand("q"),
            PostfixToken::BinaryOp(TestBinaryOp::Sub),
            PostfixToken::BinaryOp(TestBinaryOp::Add),
            PostfixToken::Operand("r"),
            PostfixToken::BinaryOp(TestBinaryOp::Add),
        ]
    );
}

#[test]
fn test_ok_2() {
    let infix_tokens = vec![
        InfixToken::Operand("a"),
        InfixToken::BinaryOp(TestBinaryOp::Add),
        InfixToken::Operand("b"),
        InfixToken::BinaryOp(TestBinaryOp::Mul),
        InfixToken::Operand("c"),
        InfixToken::BinaryOp(TestBinaryOp::Add),
        InfixToken::Operand("d"),
    ];

    assert_eq!(
        convert(infix_tokens).unwrap(),
        vec![
            PostfixToken::Operand("a"),
            PostfixToken::Operand("b"),
            PostfixToken::Operand("c"),
            PostfixToken::BinaryOp(TestBinaryOp::Mul),
            PostfixToken::BinaryOp(TestBinaryOp::Add),
            PostfixToken::Operand("d"),
            PostfixToken::BinaryOp(TestBinaryOp::Add)
        ]
    );
}

#[test]
fn test_ok_3() {
    let infix_tokens = vec![
        InfixToken::GroupStart,
        InfixToken::GroupStart,
        InfixToken::Operand("a"),
        InfixToken::BinaryOp(TestBinaryOp::Add),
        InfixToken::Operand("b"),
        InfixToken::GroupEnd,
        InfixToken::BinaryOp(TestBinaryOp::Sub),
        InfixToken::Operand("c"),
        InfixToken::BinaryOp(TestBinaryOp::Mul),
        InfixToken::GroupStart,
        InfixToken::Operand("d"),
        InfixToken::BinaryOp(TestBinaryOp::Div),
        InfixToken::Operand("e"),
        InfixToken::GroupEnd,
        InfixToken::GroupEnd,
        InfixToken::BinaryOp(TestBinaryOp::Add),
        InfixToken::Operand("f"),
    ];

    assert_eq!(
        convert(infix_tokens).unwrap(),
        vec![
            PostfixToken::Operand("a"),
            PostfixToken::Operand("b"),
            PostfixToken::BinaryOp(TestBinaryOp::Add),
            PostfixToken::Operand("c"),
            PostfixToken::Operand("d"),
            PostfixToken::Operand("e"),
            PostfixToken::BinaryOp(TestBinaryOp::Div),
            PostfixToken::BinaryOp(TestBinaryOp::Mul),
            PostfixToken::BinaryOp(TestBinaryOp::Sub),
            PostfixToken::Operand("f"),
            PostfixToken::BinaryOp(TestBinaryOp::Add),
        ]
    );
}

#[test]
fn test_bad_1() {
    let infix_tokens = vec![
        InfixToken::GroupStart,
        InfixToken::GroupStart,
        InfixToken::Operand("a"),
        InfixToken::BinaryOp(TestBinaryOp::Add),
        InfixToken::Operand("b"),
        InfixToken::GroupEnd,
        InfixToken::BinaryOp(TestBinaryOp::Sub),
        InfixToken::Operand("c"),
        InfixToken::BinaryOp(TestBinaryOp::Mul),
        InfixToken::GroupStart,
        InfixToken::Operand("d"),
        InfixToken::BinaryOp(TestBinaryOp::Div),
        InfixToken::Operand("e"),
        InfixToken::GroupEnd,
        InfixToken::GroupEnd,
        InfixToken::BinaryOp(TestBinaryOp::Add),
        InfixToken::Operand("f"),
        InfixToken::GroupStart, // Extra
    ];

    let result = convert(infix_tokens).unwrap_err();

    assert_eq!(result, ConvertError::UnbalancedGroups(1));
    assert_eq!(result.to_string(), "Unbalanced groups");
}

#[test]
fn test_bad_2() {
    let infix_tokens = vec![
        InfixToken::GroupStart,
        InfixToken::GroupStart,
        InfixToken::Operand("a"),
        InfixToken::BinaryOp(TestBinaryOp::Add),
        InfixToken::Operand("b"),
        InfixToken::GroupEnd,
        InfixToken::BinaryOp(TestBinaryOp::Sub),
        InfixToken::Operand("c"),
        InfixToken::BinaryOp(TestBinaryOp::Mul),
        InfixToken::GroupStart,
        InfixToken::Operand("d"),
        InfixToken::BinaryOp(TestBinaryOp::Div),
        InfixToken::Operand("e"),
        InfixToken::GroupEnd,
        InfixToken::BinaryOp(TestBinaryOp::Add),
        InfixToken::Operand("f"),
        // Missing GroupEnd
    ];

    let result = convert(infix_tokens).unwrap_err();

    assert_eq!(result, ConvertError::UnbalancedGroups(1));
    assert_eq!(result.to_string(), "Unbalanced groups");
}

#[test]
fn empty_input_gives_empty_output() {
    let none: Vec<Infix> = vec![];
    assert!(can_convert(&none));
    let expected: Vec<Postfix> = vec![];
    assert_eq!(convert(none), Ok(expected));
}

fn operand(name: &'static str) -> Infix {
    InfixToken::Operand(name)
}

fn operator(op: TestBinaryOp) -> Infix {
    InfixToken::BinaryOp(op)
}

#[test]
fn operands_alone_come_back_unchanged() {
    let infix_tokens = vec![operand("a"), operand("b"), operand("c")];
    assert!(can_convert(&infix_tokens));
    let expected: Vec<Postfix> = vec![
        PostfixToken::Operand("a"),
        PostfixToken::Operand("b"),
        PostfixToken::Operand("c"),
    ];
    assert_eq!(convert(infix_tokens), Ok(expected));
}

#[test]
fn equal_precedence_applies_the_left_operator_first() {
    let infix_tokens = vec![
        operand("a"),
        operator(TestBinaryOp::Sub),
        operand("b"),
        operator(TestBinaryOp::Sub),
        operand("c"),
    ];
    let expected: Vec<Postfix> = vec![
        PostfixToken::Operand("a"),
        PostfixToken::Operand("b"),
        PostfixToken::BinaryOp(TestBinaryOp::Sub),
        PostfixToken::Operand("c"),
        PostfixToken::BinaryOp(TestBinaryOp::Sub),
    ];
    assert_eq!(convert(infix_tokens), Ok(expected));
}

#[test]
fn equal_precedence_of_different_operators_applies_the_left_first() {
    let infix_tokens = vec![
        operand("a"),
        operator(TestBinaryOp::Div),
        operand("b"),
        operator(TestBinaryOp::Mul),
        operand("c"),
    ];
    let expected: Vec<Postfix> = vec![
        PostfixToken::Operand("a"),
        PostfixToken::Operand("b"),
        PostfixToken::BinaryOp(TestBinaryOp::Div),
        PostfixToken::Operand("c"),
        PostfixToken::BinaryOp(TestBinaryOp::Mul),
    ];
    assert_eq!(convert(infix_tokens), Ok(expected));
}

#[test]
fn higher_precedence_on_the_right_is_applied_first() {
    let infix_tokens = vec![
        operand("a"),
        operator(TestBinaryOp::Add),
        operand("b"),
        operator(TestBinaryOp::Mul),
        operand("c"),
    ];
    let expected: Vec<Postfix> = vec![
        PostfixToken::Operand("a"),
        PostfixToken::Operand("b"),
        PostfixToken::Operand("c"),
        PostfixToken::BinaryOp(TestBinaryOp::Mul),
        PostfixToken::BinaryOp(TestBinaryOp::Add),
    ];
    assert_eq!(convert(infix_tokens), Ok(expected));
}

#[test]
fn higher_precedence_on_the_left_is_applied_first() {
    let infix_tokens = vec![
        operand("a"),
        operator(TestBinaryOp::Mul),
        operand("b"),
        operator(TestBinaryOp::Add),
        operand("c"),
    ];
    let expected: Vec<Postfix> = vec![
        PostfixToken::Operand("a"),
        PostfixToken::Operand("b"),
        PostfixToken::BinaryOp(TestBinaryOp::Mul),
        PostfixToken::Operand("c"),
        PostfixToken::BinaryOp(TestBinaryOp::Add),
    ];
    assert_eq!(convert(infix_tokens), Ok(expected));
}

#[test]
fn a_group_is_applied_before_what_surrounds_it() {
    let infix_tokens = vec![
        InfixToken::GroupStart,
        operand("a"),
        operator(TestBinaryOp::Add),
        operand("b"),
        InfixToken::GroupEnd,
        operator(TestBinaryOp::Mul),
        operand("c"),
    ];
    let expected: Vec<Postfix> = vec![
        PostfixToken::Operand("a"),
        PostfixToken::Operand("b"),
        PostfixToken::BinaryOp(TestBinaryOp::Add),
        PostfixToken::Operand("c"),
        PostfixToken::BinaryOp(TestBinaryOp::Mul),
    ];
    assert_eq!(convert(infix_tokens), Ok(expected));
}

#[test]
fn a_group_start_shields_the_operators_below_it() {
    let infix_tokens = vec![
        operand("a"),
        operator(TestBinaryOp::Mul),
        InfixToken::GroupStart,
        operand("b"),
        operator(TestBinaryOp::Add),
        operand("c"),
        InfixToken::GroupEnd,
    ];
    let expected: Vec<Postfix> = vec![
        PostfixToken::Operand("a"),
        PostfixToken::Operand("b"),
        PostfixToken::Operand("c"),
        PostfixToken::BinaryOp(TestBinaryOp::Add),
        PostfixToken::BinaryOp(TestBinaryOp::Mul),
    ];
    assert_eq!(convert(infix_tokens), Ok(expected));
}

#[test]
fn output_holds_every_operand_and_operator_and_no_marker() {
    let infix_tokens = vec![
        InfixToken::GroupStart,
        operand("a"),
        operator(TestBinaryOp::Add),
        InfixToken::GroupStart,
        operand("b"),
        operator(TestBinaryOp::Div),
        operand("c"),
        InfixToken::GroupEnd,
        InfixToken::GroupEnd,
    ];
    let postfix = convert(infix_tokens).unwrap();
    assert_eq!(postfix.len(), 3 + 2);
    let mut operands: Vec<&str> = vec![];
    for token in &postfix {
        if let PostfixToken::Operand(name) = token {
            operands.push(name);
        }
    }
    assert_eq!(operands, vec!["a", "b", "c"]);
}

#[test]
fn operators_without_operands_are_reordered_all_the_same() {
    let infix_tokens: Vec<Infix> = vec![operator(TestBinaryOp::Add), operator(TestBinaryOp::Mul)];
    assert!(can_convert(&infix_tokens));
    let expected: Vec<Postfix> = vec![
        PostfixToken::BinaryOp(TestBinaryOp::Mul),
        PostfixToken::BinaryOp(TestBinaryOp::Add),
    ];
    assert_eq!(convert(infix_tokens), Ok(expected));
}

#[test]
fn two_open_groups_are_reported_as_two() {
    let infix_tokens = vec![
        InfixToken::GroupStart,
        InfixToken::GroupStart,
        operand("a"),
        operator(TestBinaryOp::Add),
        operand("b"),
    ];
    assert!(can_convert(&infix_tokens));
    assert_eq!(convert(infix_tokens), Err(ConvertError::UnbalancedGroups(2)));
}

#[test]
fn a_stray_group_end_is_reported_as_minus_one() {
    let infix_tokens = vec![operand("a"), operator(TestBinaryOp::Add), operand("b"), InfixToken::GroupEnd];
    assert!(can_convert(&infix_tokens));
    assert_eq!(convert(infix_tokens), Err(ConvertError::UnbalancedGroups(-1)));
}

#[test]
fn mixed_stray_markers_are_reported_by_their_net_count() {
    let infix_tokens: Vec<Infix> =
        vec![InfixToken::GroupEnd, InfixToken::GroupStart, InfixToken::GroupEnd];
    assert!(can_convert(&infix_tokens));
    assert_eq!(convert(infix_tokens), Err(ConvertError::UnbalancedGroups(-1)));

    let infix_tokens: Vec<Infix> = vec![
        InfixToken::GroupEnd,
        InfixToken::GroupStart,
        InfixToken::GroupStart,
        operand("a"),
    ];
    assert!(can_convert(&infix_tokens));
    assert_eq!(convert(infix_tokens), Err(ConvertError::UnbalancedGroups(1)));
}

#[test]
fn equal_counts_that_are_not_nested_are_not_taken() {
    let infix_tokens: Vec<Infix> = vec![InfixToken::GroupEnd, InfixToken::GroupStart];
    assert!(!can_convert(&infix_tokens));

    let infix_tokens: Vec<Infix> = vec![
        InfixToken::GroupStart,
        operand("a"),
        InfixToken::GroupEnd,
        InfixToken::GroupEnd,
        operator(TestBinaryOp::Add),
        InfixToken::GroupStart,
    ];
    assert!(!can_convert(&infix_tokens));
}

#[test]
fn nested_groups_are_taken() {
    let infix_tokens: Vec<Infix> = vec![
        InfixToken::GroupStart,
        InfixToken::GroupStart,
        operand("a"),
        InfixToken::GroupEnd,
        InfixToken::GroupEnd,
    ];
    assert!(can_convert(&infix_tokens));
    let expected: Vec<Postfix> = vec![PostfixToken::Operand("a")];
    assert_eq!(convert(infix_tokens), Ok(expected));
}

#[test]
fn the_error_reads_the_same_whatever_the_depth() {
    assert_eq!(ConvertError::UnbalancedGroups(3).to_string(), "Unbalanced groups");
    assert_eq!(ConvertError::UnbalancedGroups(-7).to_string(), "Unbalanced groups");
}

#[test]
fn a_group_around_the_whole_input_changes_nothing() {
    let bare = vec![
        operand("a"),
        operator(TestBinaryOp::Add),
        operand("b"),
        operator(TestBinaryOp::Mul),
        operand("c"),
    ];
    let grouped = vec![
        InfixToken::GroupStart,
        operand("a"),
        operator(TestBinaryOp::Add),
        operand("b"),
        operator(TestBinaryOp::Mul),
        operand("c"),
        InfixToken::GroupEnd,
    ];
    let expected: Vec<Postfix> = vec![
        PostfixToken::Operand("a"),
        PostfixToken::Operand("b"),
        PostfixToken::Operand("c"),
        PostfixToken::BinaryOp(TestBinaryOp::Mul),
        PostfixToken::BinaryOp(TestBinaryOp::Add),
    ];
    assert_eq!(convert(grouped), convert(bare));
    let grouped_twice = vec![
        InfixToken::GroupStart,
        InfixToken::GroupStart,
        operand("a"),
        operator(TestBinaryOp::Add),
        operand("b"),
        operator(TestBinaryOp::Mul),
        operand("c"),
        InfixToken::GroupEnd,
        InfixToken::GroupEnd,
    ];
    assert_eq!(convert(grouped_twice), Ok(expected));
}

#[test]
fn a_group_stands_where_an_operand_would() {
    let infix_tokens = vec![
        operand("a"),
        operator(TestBinaryOp::Mul),
        InfixToken::GroupStart,
        operand("b"),
        operator(TestBinaryOp::Add),
        operand("c"),
        InfixToken::GroupEnd,
        operator(TestBinaryOp::Div),
        operand("d"),
    ];
    let expected: Vec<Postfix> = vec![
        PostfixToken::Operand("a"),
        PostfixToken::Operand("b"),
        PostfixToken::Operand("c"),
        PostfixToken::BinaryOp(TestBinaryOp::Add),
        PostfixToken::BinaryOp(TestBinaryOp::Mul),
        PostfixToken::Operand("d"),
        PostfixToken::BinaryOp(TestBinaryOp::Div),
    ];
    assert_eq!(convert(infix_tokens), Ok(expected));
}

#[test]
fn an_empty_group_leaves_nothing() {
    let infix_tokens: Vec<Infix> = vec![InfixToken::GroupStart, InfixToken::GroupEnd];
    assert!(can_convert(&infix_tokens));
    let expected: Vec<Postfix> = vec![];
    assert_eq!(convert(infix_tokens), Ok(expected));
}

#[test]
fn a_stray_group_end_writes_the_waiting_operators_and_is_reported() {
    let infix_tokens = vec![
        operand("a"),
        operator(TestBinaryOp::Add),
        operand("b"),
        InfixToken::GroupEnd,
        InfixToken::GroupEnd,
        operator(TestBinaryOp::Mul),
        operand("c"),
    ];
    assert!(can_convert(&infix_tokens));
    assert_eq!(convert(infix_tokens), Err(ConvertError::UnbalancedGroups(-2)));
}
