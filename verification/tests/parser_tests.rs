use spreadsheet::info::{Info, ValueInfo};
use spreadsheet::parser::{
    cell_parser, expression_parser, parse, parse_sheet_dimensions, value_parser, ParseError,
    ParserContext,
};

const N: usize = 999;
const M: usize = 18278;

#[test]
fn test_cell_parser() {
    assert_eq!(cell_parser("A1", N, M), Ok(0));
    assert_eq!(cell_parser("B2", N, M), Ok(M + 1));
    assert_eq!(cell_parser("Z999", N, M), Ok(998 * M + 25));
    assert_eq!(cell_parser("A0", N, M), Err(ParseError::InvalidCell));
    assert_eq!(cell_parser("A1000", N, M), Err(ParseError::InvalidCell));
    assert_eq!(cell_parser("ZZZZ1", N, M), Err(ParseError::InvalidCell));
    assert_eq!(cell_parser("1", N, M), Err(ParseError::InvalidCell));
    assert_eq!(cell_parser("AB", N, M), Err(ParseError::InvalidCell));
    assert_eq!(cell_parser("C3", 2, 2), Err(ParseError::InvalidCell));
}

#[test]
fn test_value_parser() {
    let mut vi = ValueInfo::default();
    assert_eq!(value_parser("C3", &mut vi, 10, 10), Ok(()));
    assert!(vi.is_cell);
    assert_eq!(vi.value, 22);
    assert_eq!(value_parser("-42", &mut vi, 10, 10), Ok(()));
    assert!(!vi.is_cell);
    assert_eq!(vi.value, -42);
    assert_eq!(value_parser("99999999999", &mut vi, 10, 10), Err(ParseError::InvalidValue));
}

fn parse_formula(s: &str) -> (Result<(), ParseError>, Info) {
    let mut info = Info::default();
    let r = expression_parser(s, &mut info, 10, 10);
    (r, info)
}

#[test]
fn test_expression_forms() {
    let (r, info) = parse_formula("42");
    assert_eq!(r, Ok(()));
    assert_eq!((info.function_id, info.arg_mask, info.arg[0]), (0, 0, 42));

    let (r, info) = parse_formula("B1");
    assert_eq!(r, Ok(()));
    assert_eq!((info.function_id, info.arg_mask, info.arg[0]), (0, 1, 1));

    let (r, info) = parse_formula("SLEEP(3)");
    assert_eq!(r, Ok(()));
    assert_eq!((info.function_id, info.arg[0]), (1, 3));

    let (r, info) = parse_formula("A1+-5");
    assert_eq!(r, Ok(()));
    assert_eq!((info.function_id, info.arg_mask, info.arg), (2, 1, [0, -5]));

    let (r, info) = parse_formula("-5*B2");
    assert_eq!(r, Ok(()));
    assert_eq!((info.function_id, info.arg_mask, info.arg), (4, 2, [-5, 11]));

    let (r, info) = parse_formula("A1/A2");
    assert_eq!(r, Ok(()));
    assert_eq!((info.function_id, info.arg_mask, info.arg), (5, 3, [0, 10]));

    let (r, info) = parse_formula("STDEV(A1:B3)");
    assert_eq!(r, Ok(()));
    assert_eq!((info.function_id, info.arg_mask, info.arg), (10, 3, [0, 21]));

    // the formula after the last `=` counts
    let (r, info) = parse_formula("C1=7");
    assert_eq!(r, Ok(()));
    assert_eq!((info.function_id, info.arg[0]), (0, 7));
}

#[test]
fn test_expression_errors() {
    assert_eq!(parse_formula("SUM(B2:A1)").0, Err(ParseError::InvalidRange));
    assert_eq!(parse_formula("MAX(A1:K1)").0, Err(ParseError::InvalidCell));
    assert_eq!(parse_formula("A1+").0, Err(ParseError::InvalidCommand));
    assert_eq!(parse_formula("sum(A1:B2)").0, Err(ParseError::InvalidCommand));
    assert_eq!(parse_formula("").0, Err(ParseError::InvalidCommand));
    assert_eq!(parse_formula("2147483648").0, Err(ParseError::InvalidValue));
    assert_eq!(parse_formula("A0").0, Err(ParseError::InvalidCommand));
}

#[test]
fn test_parse_commands() {
    let mut ctx = ParserContext::new();
    let cmd = parse("B2=A1+1", &mut ctx, 10, 10).unwrap();
    assert_eq!(cmd.lhs_cell, 11);
    assert_eq!((cmd.info.function_id, cmd.info.arg_mask, cmd.info.arg), (2, 1, [0, 1]));

    assert_eq!(parse("undo", &mut ctx, 10, 10).unwrap().lhs_cell, -2);
    assert_eq!(parse("redo", &mut ctx, 10, 10).unwrap().lhs_cell, -3);

    assert_eq!(parse("disable_output", &mut ctx, 10, 10).unwrap().lhs_cell, -1);
    assert!(!ctx.output_enabled);
    assert_eq!(parse("enable_output", &mut ctx, 10, 10).unwrap().lhs_cell, -1);
    assert!(ctx.output_enabled);

    assert_eq!(parse("scroll_to C4", &mut ctx, 10, 10).unwrap().lhs_cell, -1);
    assert_eq!((ctx.px, ctx.py), (3, 2));

    assert_eq!(parse("", &mut ctx, 10, 10).unwrap_err(), ParseError::InvalidCommand);
    assert_eq!(parse("x", &mut ctx, 10, 10).unwrap_err(), ParseError::InvalidCommand);
    assert_eq!(parse("K1=2", &mut ctx, 10, 10).unwrap_err(), ParseError::InvalidCell);
    assert_eq!(parse("scroll_to K1", &mut ctx, 10, 10).unwrap_err(), ParseError::InvalidCommand);
}

#[test]
fn test_parse_moves() {
    let mut ctx = ParserContext::new();
    parse("s", &mut ctx, 100, 100).unwrap();
    assert_eq!(ctx.px, 10);
    parse("d", &mut ctx, 100, 15).unwrap();
    assert_eq!(ctx.py, 5);
    parse("w", &mut ctx, 100, 100).unwrap();
    assert_eq!(ctx.px, 0);
    parse("a", &mut ctx, 100, 100).unwrap();
    assert_eq!(ctx.py, 0);
}

#[test]
fn test_parse_sheet_dimensions() {
    assert_eq!(parse_sheet_dimensions("10", "5", 999, 18278), Ok((10, 5)));
    assert_eq!(parse_sheet_dimensions("0", "5", 999, 18278), Err(ParseError::InvalidValue));
    assert_eq!(parse_sheet_dimensions("10", "x", 999, 18278), Err(ParseError::InvalidValue));
    assert_eq!(parse_sheet_dimensions("1000", "5", 999, 18278), Err(ParseError::InvalidValue));
}
