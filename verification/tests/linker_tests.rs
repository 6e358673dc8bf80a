//! Tests of the tokenizer, the section splitter, and the linker, and of
//! whole programs assembled and then run on the engine.

use tinyvm::linker::{assemble, build_bytes, get_sections, AsmError};
use tinyvm::cpu::{Cpu, RunResult};
use tinyvm::tokens::{calc_byte_len, SyntaxErrorKind, Token};

fn lines(src: &[&str]) -> Vec<String> {
    src.iter().map(|l| l.to_string()).collect()
}

fn exit_code(r: RunResult) -> u8 {
    match r {
        RunResult::Exited(code) => code,
        other => panic!("expected an exit, got {:?}", other),
    }
}

#[test]
fn tokenizer_accepts_every_mnemonic() {
    assert_eq!(Token::parse("nop"), Ok(Token::Nop));
    assert_eq!(Token::parse("exit 7"), Ok(Token::Exit(7)));
    assert_eq!(Token::parse("add"), Ok(Token::Add));
    assert_eq!(Token::parse("subtract"), Ok(Token::Subtract));
    assert_eq!(Token::parse("multiply"), Ok(Token::Multiply));
    assert_eq!(Token::parse("loada x"), Ok(Token::LoadA("x".to_string())));
    assert_eq!(Token::parse("loadb y"), Ok(Token::LoadB("y".to_string())));
    assert_eq!(Token::parse("loadc z"), Ok(Token::LoadC("z".to_string())));
    assert_eq!(Token::parse("storea x"), Ok(Token::StoreA("x".to_string())));
    assert_eq!(Token::parse("storeb y"), Ok(Token::StoreB("y".to_string())));
    assert_eq!(Token::parse("storec z"), Ok(Token::StoreC("z".to_string())));
    assert_eq!(Token::parse("jump main"), Ok(Token::Jump("main".to_string())));
    assert_eq!(Token::parse("jeq a"), Ok(Token::Jeq("a".to_string())));
    assert_eq!(Token::parse("jneq b"), Ok(Token::Jneq("b".to_string())));
    assert_eq!(Token::parse("jgt c"), Ok(Token::Jgt("c".to_string())));
    assert_eq!(Token::parse("jlt d"), Ok(Token::Jlt("d".to_string())));
    assert_eq!(
        Token::parse("u8 cell 200"),
        Ok(Token::U8Data("cell".to_string(), 200))
    );
}

#[test]
fn tokenizer_ignores_blanks_and_comments() {
    assert_eq!(Token::parse(""), Ok(Token::Ignore));
    assert_eq!(Token::parse("   "), Ok(Token::Ignore));
    assert_eq!(Token::parse("// a comment"), Ok(Token::Ignore));
    assert_eq!(Token::parse("//comment"), Ok(Token::Ignore));
    assert_eq!(Token::parse("  exit 3  "), Ok(Token::Exit(3)));
}

#[test]
fn tokenizer_rejects_bad_lines() {
    let e = Token::parse("bogus").unwrap_err();
    assert_eq!(e.kind, SyntaxErrorKind::UnknownMnemonic);
    assert_eq!(e.lexeme, "bogus");

    let e = Token::parse("exit").unwrap_err();
    assert_eq!(e.kind, SyntaxErrorKind::MissingOperand);

    let e = Token::parse("loada").unwrap_err();
    assert_eq!(e.kind, SyntaxErrorKind::MissingOperand);

    let e = Token::parse("u8 x").unwrap_err();
    assert_eq!(e.kind, SyntaxErrorKind::MissingOperand);

    let e = Token::parse("exit 256").unwrap_err();
    assert_eq!(e.kind, SyntaxErrorKind::InvalidNumber);
    assert_eq!(e.lexeme, "256");

    let e = Token::parse("u8 x ten").unwrap_err();
    assert_eq!(e.kind, SyntaxErrorKind::InvalidNumber);

    let e = Token::parse("exit -1").unwrap_err();
    assert_eq!(e.kind, SyntaxErrorKind::InvalidNumber);
}

#[test]
fn calc_byte_len_sums_fixed_widths() {
    let tokens = vec![
        Token::Nop,
        Token::Exit(0),
        Token::U8Data("x".to_string(), 1),
        Token::Add,
        Token::LoadA("x".to_string()),
        Token::Jump("main".to_string()),
        Token::Ignore,
    ];
    // 1 + 2 + 1 + 1 + 5 + 5 + 0
    assert_eq!(calc_byte_len(&tokens), 15);
}

#[test]
fn get_sections_splits_on_headers() {
    let src = lines(&["data:", "u8 x 1", "", "main:", "nop", "// end"]);
    let (labels, sections) = get_sections(&src).unwrap();
    assert_eq!(labels, vec!["data".to_string(), "main".to_string()]);
    assert_eq!(sections.len(), 2);
    assert_eq!(
        sections[0],
        vec![Token::U8Data("x".to_string(), 1), Token::Ignore]
    );
    assert_eq!(sections[1], vec![Token::Nop, Token::Ignore]);
}

#[test]
fn get_sections_rejects_misplaced_tokens() {
    let err = get_sections(&lines(&["data:", "nop"])).unwrap_err();
    match err {
        AsmError::Syntax(line, e) => {
            assert_eq!(line, 1);
            assert_eq!(e.kind, SyntaxErrorKind::MisplacedInstruction);
        }
        other => panic!("unexpected {:?}", other),
    }

    let err = get_sections(&lines(&["data:", "main:", "u8 x 1"])).unwrap_err();
    match err {
        AsmError::Syntax(line, e) => {
            assert_eq!(line, 2);
            assert_eq!(e.kind, SyntaxErrorKind::MisplacedData);
        }
        other => panic!("unexpected {:?}", other),
    }

    let err = get_sections(&lines(&["nop", "main:"])).unwrap_err();
    match err {
        AsmError::Syntax(line, e) => {
            assert_eq!(line, 0);
            assert_eq!(e.kind, SyntaxErrorKind::OutsideSection);
        }
        other => panic!("unexpected {:?}", other),
    }
}

#[test]
fn program_without_sections_is_refused() {
    assert_eq!(assemble(&lines(&["// nothing"])), Err(AsmError::NoSections));
    assert_eq!(assemble(&lines(&[])), Err(AsmError::NoSections));
}

#[test]
fn assembled_image_matches_expected_bytes() {
    let src = lines(&[
        "data:",
        "u8 x 10",
        "u8 y 5",
        "u8 z 0",
        "main:",
        "loada x",
        "loadb y",
        "add",
        "storec z",
        "exit 0",
    ]);
    let image = assemble(&src).unwrap();
    let expected: Vec<u8> = vec![
        12, 0, 0, 0, 8, // jump past the data section
        10, 5, 0, // data cells x, y, z
        6, 0, 0, 0, 5, // loada x
        7, 0, 0, 0, 6, // loadb y
        3, // add
        11, 0, 0, 0, 7, // storec z
        2, 0, // exit 0
    ];
    assert_eq!(image, expected);
}

#[test]
fn assembled_program_adds_and_stores() {
    let src = lines(&[
        "data:",
        "u8 x 10",
        "u8 y 5",
        "u8 z 0",
        "main:",
        "loada x",
        "loadb y",
        "add",
        "storec z",
        "exit 0",
    ]);
    let image = assemble(&src).unwrap();
    let mut cpu = Cpu::new(image).unwrap();
    assert_eq!(exit_code(cpu.run(1_000)), 0);
    // z is the third data cell: address 5 + 2.
    assert_eq!(cpu.get_memory(7), 15);
}

#[test]
fn assembly_is_idempotent() {
    let src = lines(&[
        "data:",
        "u8 x 10",
        "u8 y 5",
        "main:",
        "loada x",
        "loadb y",
        "add",
        "exit 1",
    ]);
    assert_eq!(assemble(&src).unwrap(), assemble(&src).unwrap());
}

#[test]
fn exit_only_program_leaves_memory_alone() {
    let src = lines(&["data:", "main:", "exit 7"]);
    let image = assemble(&src).unwrap();
    assert_eq!(image, vec![12, 0, 0, 0, 5, 2, 7]);
    let mut cpu = Cpu::new(image.clone()).unwrap();
    assert_eq!(exit_code(cpu.run(100)), 7);
    assert_eq!(cpu.memory(), &image);
}

#[test]
fn exit_255_round_trips_through_assembly() {
    let src = lines(&["data:", "main:", "exit 255"]);
    let image = assemble(&src).unwrap();
    let mut cpu = Cpu::new(image).unwrap();
    assert_eq!(exit_code(cpu.run(100)), 255);
}

#[test]
fn data_labels_resolve_to_offset_plus_index() {
    let src = lines(&[
        "data:",
        "u8 first 1",
        "u8 second 2",
        "main:",
        "loada first",
        "loadb second",
        "exit 0",
    ]);
    let image = assemble(&src).unwrap();
    // The leading jump lands right after the two data bytes: 5 + 2.
    assert_eq!(&image[0..5], &[12, 0, 0, 0, 7]);
    // loada first: address 5 + 0; loadb second: address 5 + 1.
    assert_eq!(&image[7..12], &[6, 0, 0, 0, 5]);
    assert_eq!(&image[12..17], &[7, 0, 0, 0, 6]);
}

#[test]
fn later_code_sections_accumulate_offsets() {
    let src = lines(&[
        "data:",
        "u8 r 0",
        "main:",
        "jump other",
        "other:",
        "exit 9",
    ]);
    let image = assemble(&src).unwrap();
    // main starts at 6 (jump + one data byte); other starts at 11.
    assert_eq!(&image[6..11], &[12, 0, 0, 0, 11]);
    let mut cpu = Cpu::new(image).unwrap();
    assert_eq!(exit_code(cpu.run(100)), 9);
}

#[test]
fn store_then_load_round_trips_through_memory() {
    let src = lines(&[
        "data:",
        "u8 x 77",
        "u8 y 0",
        "main:",
        "loada x",
        "storea y",
        "loadb y",
        "jeq same",
        "exit 1",
        "same:",
        "exit 0",
    ]);
    let image = assemble(&src).unwrap();
    let mut cpu = Cpu::new(image).unwrap();
    // The load after the store sees the stored value, so A equals B and
    // the program takes the jump to `same`.
    assert_eq!(exit_code(cpu.run(1_000)), 0);
    assert_eq!(cpu.get_memory(6), 77);
}

#[test]
fn unresolved_label_fails_with_link_error() {
    let src = lines(&["data:", "main:", "jump nowhere"]);
    match assemble(&src).unwrap_err() {
        AsmError::Link(e) => assert_eq!(e.label, "nowhere"),
        other => panic!("unexpected {:?}", other),
    }
}

#[test]
fn syntax_error_reports_line_and_lexeme() {
    let src = lines(&["data:", "main:", "nop", "frobnicate x"]);
    match assemble(&src).unwrap_err() {
        AsmError::Syntax(line, e) => {
            assert_eq!(line, 3);
            assert_eq!(e.kind, SyntaxErrorKind::UnknownMnemonic);
            assert_eq!(e.lexeme, "frobnicate");
        }
        other => panic!("unexpected {:?}", other),
    }
}

#[test]
fn build_bytes_links_presplit_sections() {
    let labels = vec!["data".to_string(), "main".to_string()];
    let sections = vec![
        vec![Token::U8Data("x".to_string(), 9)],
        vec![Token::LoadA("x".to_string()), Token::Exit(0)],
    ];
    let image = build_bytes(&labels, &sections).unwrap();
    assert_eq!(image, vec![12, 0, 0, 0, 6, 9, 6, 0, 0, 0, 5, 2, 0]);
}

#[test]
fn arithmetic_matches_wrapping_oracle() {
    // The final result cell must equal what 8-bit wraparound arithmetic
    // computes for the same values.
    for (a, b) in [(200u8, 100u8), (0, 0), (255, 255), (17, 4)] {
        let src = lines(&[
            "data:",
            &format!("u8 a {a}"),
            &format!("u8 b {b}"),
            "u8 r 0",
            "main:",
            "loada a",
            "loadb b",
            "add",
            "storec r",
            "exit 0",
        ]);
        let image = assemble(&src).unwrap();
        let mut cpu = Cpu::new(image).unwrap();
        assert_eq!(exit_code(cpu.run(1_000)), 0);
        assert_eq!(cpu.get_memory(7), a.wrapping_add(b));
    }
}

#[test]
fn headers_tolerate_surrounding_whitespace() {
    let src = lines(&["  data:  ", "main:", "exit 4"]);
    let image = assemble(&src).unwrap();
    let mut cpu = Cpu::new(image).unwrap();
    assert_eq!(exit_code(cpu.run(100)), 4);
}
