use ooo_pipeline::instruction::{
    check_program, decode_line, parse_opcode, parse_register, DecodedInstructionEntry, Opcode,
};
use ooo_pipeline::text::{
    char_is_white_space, chars_of, ends_with_char, parse_decimal, split_words, trim_end_char,
};

#[test]
fn white_space_agrees_with_std_on_every_char() {
    for n in 0..=0x10FFFFu32 {
        if let Some(c) = char::from_u32(n) {
            assert_eq!(char_is_white_space(c), c.is_whitespace(), "U+{:04X}", n);
        }
    }
}

#[test]
fn chars_of_lists_the_characters() {
    assert_eq!(chars_of("a\u{e9}x"), vec!['a', '\u{e9}', 'x']);
    assert_eq!(chars_of(""), Vec::<char>::new());
}

#[test]
fn split_words_agrees_with_std() {
    let samples = [
        "",
        " ",
        "addi x1, x0, 7",
        "  addi   x1,\tx0,\n7  ",
        "one",
        " lead",
        "trail ",
        "a\u{2003}b\u{3000}c",
        "\u{a0}x\u{85}y\u{1680}",
        "n\u{200b}o split",
        "mulu x4, x2, x3 extra words here",
    ];
    for s in samples {
        let expected: Vec<String> = s.split_whitespace().map(|w| w.to_string()).collect();
        assert_eq!(split_words(s), expected, "{:?}", s);
    }
}

#[test]
fn split_words_exact_values() {
    assert_eq!(split_words("addi x1, x0, 7"), vec!["addi", "x1,", "x0,", "7"]);
    assert_eq!(split_words("   "), Vec::<String>::new());
}

#[test]
fn trim_end_char_drops_every_trailing_occurrence() {
    assert_eq!(trim_end_char("x1,", ','), "x1");
    assert_eq!(trim_end_char("x1,,,", ','), "x1");
    assert_eq!(trim_end_char(",x1", ','), ",x1");
    assert_eq!(trim_end_char("addi", 'i'), "add");
    assert_eq!(trim_end_char("iii", 'i'), "");
    assert_eq!(trim_end_char("", 'i'), "");
    assert_eq!(trim_end_char("divu", 'i'), "divu");
}

#[test]
fn ends_with_char_looks_at_the_last_character() {
    assert!(ends_with_char("addi", 'i'));
    assert!(!ends_with_char("add", 'i'));
    assert!(!ends_with_char("", 'i'));
    assert!(!ends_with_char("ia", 'i'));
}

#[test]
fn parse_decimal_agrees_with_std() {
    let samples = [
        "0",
        "7",
        "007",
        "+5",
        "+",
        "",
        "-1",
        "12a",
        "a12",
        " 1",
        "1 ",
        "1_000",
        "18446744073709551615",
        "18446744073709551616",
        "99999999999999999999999999",
        "+18446744073709551615",
        "++1",
        "0x10",
        "\u{0661}",
    ];
    for s in samples {
        assert_eq!(parse_decimal(s), s.parse::<u64>().ok(), "{:?}", s);
    }
}

#[test]
fn parse_decimal_exact_values() {
    assert_eq!(parse_decimal("42"), Some(42));
    assert_eq!(parse_decimal("18446744073709551615"), Some(u64::MAX));
    assert_eq!(parse_decimal("18446744073709551616"), None);
    assert_eq!(parse_decimal("x1"), None);
}

#[test]
fn parse_register_takes_x_and_a_number_below_32() {
    assert_eq!(parse_register("x0"), Some(0));
    assert_eq!(parse_register("x31"), Some(31));
    assert_eq!(parse_register("x07"), Some(7));
    assert_eq!(parse_register("x32"), None);
    assert_eq!(parse_register("x"), None);
    assert_eq!(parse_register(""), None);
    assert_eq!(parse_register("y1"), None);
    assert_eq!(parse_register("7"), None);
    assert_eq!(parse_register("x1,"), None);
    assert_eq!(parse_register("x99999999999999999999999"), None);
}

#[test]
fn parse_opcode_knows_the_five_operations() {
    assert_eq!(parse_opcode("add"), Some(Opcode::Add));
    assert_eq!(parse_opcode("addi"), Some(Opcode::Add));
    assert_eq!(parse_opcode("sub"), Some(Opcode::Sub));
    assert_eq!(parse_opcode("mulu"), Some(Opcode::Mulu));
    assert_eq!(parse_opcode("divu"), Some(Opcode::Divu));
    assert_eq!(parse_opcode("remu"), Some(Opcode::Remu));
    assert_eq!(parse_opcode(""), None);
    assert_eq!(parse_opcode("ad"), None);
    assert_eq!(parse_opcode("adds"), None);
    assert_eq!(parse_opcode("subi"), None);
    assert_eq!(parse_opcode("ADD"), None);
    assert_eq!(parse_opcode("mul"), None);
}

fn decoded(pc: u64, op: &str, is_imm: bool, dest: &str, src1: &str, src2: &str) -> DecodedInstructionEntry {
    DecodedInstructionEntry {
        pc,
        op: op.to_string(),
        is_imm,
        dest: dest.to_string(),
        src1: src1.to_string(),
        src2: src2.to_string(),
    }
}

#[test]
fn decode_line_splits_an_instruction() {
    assert_eq!(decode_line("addi x3, x1, 5", 9), Some(decoded(9, "add", true, "x3", "x1", "5")));
    assert_eq!(decode_line("mulu x4, x2, x3", 0), Some(decoded(0, "mulu", false, "x4", "x2", "x3")));
    assert_eq!(
        decode_line("  divu\tx1,,  x2,   x3,  trailing", 2),
        Some(decoded(2, "divu", false, "x1", "x2", "x3"))
    );
    assert_eq!(decode_line("addii x1, x0, 7,", 1), Some(decoded(1, "add", true, "x1", "x0", "7")));
}

#[test]
fn decode_line_skips_short_lines() {
    assert_eq!(decode_line("", 0), None);
    assert_eq!(decode_line("add x1, x2", 0), None);
    assert_eq!(decode_line("   \t ", 0), None);
    assert_eq!(decode_line("nop", 0), None);
}

#[test]
fn decoded_well_formedness() {
    assert!(decoded(0, "add", true, "x1", "x0", "7").is_well_formed());
    assert!(decoded(0, "sub", true, "x1", "x0", "7").is_well_formed());
    assert!(decoded(0, "remu", false, "x31", "x0", "x30").is_well_formed());
    assert!(!decoded(0, "foo", false, "x1", "x0", "x2").is_well_formed());
    assert!(!decoded(0, "add", false, "x32", "x0", "x2").is_well_formed());
    assert!(!decoded(0, "add", false, "x1", "r0", "x2").is_well_formed());
    assert!(!decoded(0, "add", false, "x1", "x0", "7").is_well_formed());
    assert!(!decoded(0, "add", true, "x1", "x0", "x2").is_well_formed());
    assert!(!decoded(0, "add", true, "x1", "x0", "18446744073709551616").is_well_formed());
}

fn program(lines: &[&str]) -> Vec<String> {
    lines.iter().map(|l| l.to_string()).collect()
}

#[test]
fn check_program_accepts_what_rename_can_process() {
    assert!(check_program(&program(&[])));
    assert!(check_program(&program(&["addi x1, x0, 7", "", "short line", "divu x2, x1, x1"])));
    assert!(check_program(&program(&["addi x1, x0, 18446744073709551615"])));
    assert!(check_program(&program(&["addi x1, x0, +5"])));
    assert!(check_program(&program(&["subi x1, x0, 1", "mului x2, x1, 3"])));
}

#[test]
fn check_program_rejects_what_rename_cannot_process() {
    assert!(!check_program(&program(&["foo x1, x2, x3"])));
    assert!(!check_program(&program(&["add x32, x0, x0"])));
    assert!(!check_program(&program(&["add y1, x0, x0"])));
    assert!(!check_program(&program(&["addi x1, x0, x2"])));
    assert!(!check_program(&program(&["add x1, x0, 7"])));
    assert!(!check_program(&program(&["addi x1, x0, -1"])));
    assert!(!check_program(&program(&["addi x1, x0, 18446744073709551616"])));
    assert!(!check_program(&program(&["addi x1, x0, 1", "i x1, x0, x0"])));
}
