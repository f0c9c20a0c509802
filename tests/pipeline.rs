use bfc::codegen::{generate_assembly, GenError};
use bfc::compiler::{compile, CompileError};
use bfc::lexer::{tokenize, LexError, Lexer};
use bfc::token::{Token, TokenType};

fn tok(token_type: TokenType, amount: usize) -> Token {
    Token { token_type, amount }
}

/// Runs instructions on a tape of wrapping bytes, following the jump amounts
/// exactly as the generator pairs them; returns the tape.
fn run(tokens: &[Token], tape: &mut [u8]) {
    let mut pc: usize = 0;
    let mut ptr: usize = 0;
    let mut steps: usize = 0;
    while pc < tokens.len() {
        steps += 1;
        assert!(steps < 1_000_000, "program did not terminate");
        let t = tokens[pc];
        match t.token_type {
            TokenType::Add => tape[ptr] = tape[ptr].wrapping_add((t.amount % 256) as u8),
            TokenType::Subtract => tape[ptr] = tape[ptr].wrapping_sub((t.amount % 256) as u8),
            TokenType::Left => ptr = (ptr + tape.len() - t.amount % tape.len()) % tape.len(),
            TokenType::Right => ptr = (ptr + t.amount) % tape.len(),
            TokenType::Output | TokenType::Input => {}
            TokenType::JumpIfZero => {
                if tape[ptr] == 0 {
                    pc += t.amount;
                    continue;
                }
            }
            TokenType::JumpIfNotZero => {
                if tape[ptr] != 0 {
                    pc -= t.amount + 1;
                    continue;
                }
            }
        }
        pc += 1;
    }
}

#[test]
fn add_then_output_compresses() {
    let ir = tokenize("+++.").unwrap();
    assert_eq!(ir, vec![tok(TokenType::Add, 3), tok(TokenType::Output, 1)]);
    let text = compile("+++.").unwrap();
    assert_eq!(text.matches("    add byte[r8], 3\n").count(), 1);
    assert_eq!(text.matches("    call write\n").count(), 1);
    assert!(!text.contains("    inc byte[r8]\n"));
}

#[test]
fn clear_loop_reaches_zero() {
    let ir = tokenize("[-]").unwrap();
    assert_eq!(
        ir,
        vec![
            tok(TokenType::JumpIfZero, 3),
            tok(TokenType::Subtract, 1),
            tok(TokenType::JumpIfNotZero, 1),
        ]
    );
    for start in [1u8, 2, 7, 128, 255] {
        let mut tape = [0u8; 4];
        tape[0] = start;
        run(&ir, &mut tape);
        assert_eq!(tape[0], 0);
    }
}

#[test]
fn lone_close_is_unmatched() {
    assert_eq!(tokenize("]"), Err(LexError::UnmatchedClose));
    assert_eq!(compile("]"), Err(CompileError::Lex(LexError::UnmatchedClose)));
}

#[test]
fn lone_open_is_unmatched() {
    assert_eq!(tokenize("["), Err(LexError::UnmatchedOpen));
    assert_eq!(compile("["), Err(CompileError::Lex(LexError::UnmatchedOpen)));
}

#[test]
fn cell_wraps_after_255() {
    let mut source = "+.".repeat(255);
    source.push('+');
    let ir = tokenize(&source).unwrap();
    assert_eq!(ir.len(), 511);
    let mut tape = [0u8; 4];
    run(&ir[..510], &mut tape);
    assert_eq!(tape[0], 255);
    run(&ir[510..], &mut tape);
    assert_eq!(tape[0], 0);
    let text = compile(&source).unwrap();
    assert_eq!(text.matches("    inc byte[r8]\n").count(), 256);
}

#[test]
fn run_of_one_symbol_is_one_instruction() {
    assert_eq!(tokenize(">>>>>>>"), Ok(vec![tok(TokenType::Right, 7)]));
    assert_eq!(tokenize("<"), Ok(vec![tok(TokenType::Left, 1)]));
    assert_eq!(tokenize(",,,"), Ok(vec![tok(TokenType::Input, 3)]));
}

#[test]
fn different_symbols_never_merge() {
    assert_eq!(
        tokenize("++--+"),
        Ok(vec![
            tok(TokenType::Add, 2),
            tok(TokenType::Subtract, 2),
            tok(TokenType::Add, 1),
        ])
    );
    assert_eq!(
        tokenize("..<<"),
        Ok(vec![tok(TokenType::Output, 2), tok(TokenType::Left, 2)])
    );
}

#[test]
fn brackets_never_merge() {
    assert_eq!(
        tokenize("[[]]"),
        Ok(vec![
            tok(TokenType::JumpIfZero, 4),
            tok(TokenType::JumpIfZero, 2),
            tok(TokenType::JumpIfNotZero, 0),
            tok(TokenType::JumpIfNotZero, 2),
        ])
    );
}

#[test]
fn jumps_pair_up_in_nested_loops() {
    let ir = tokenize("+[>[-]<[->+<]-]").unwrap();
    let opens = ir.iter().filter(|t| t.token_type == TokenType::JumpIfZero).count();
    let closes = ir.iter().filter(|t| t.token_type == TokenType::JumpIfNotZero).count();
    assert_eq!(opens, 3);
    assert_eq!(closes, 3);
    for (i, t) in ir.iter().enumerate() {
        if t.token_type == TokenType::JumpIfZero {
            let close = ir[i + t.amount - 1];
            assert_eq!(close.token_type, TokenType::JumpIfNotZero);
            assert_eq!(t.amount, close.amount + 2);
        }
        if t.token_type == TokenType::JumpIfNotZero {
            let open = ir[i - t.amount - 1];
            assert_eq!(open.token_type, TokenType::JumpIfZero);
        }
    }
}

#[test]
fn other_characters_are_ignored() {
    assert_eq!(
        tokenize("a + b\n+ c # ."),
        Ok(vec![tok(TokenType::Add, 2), tok(TokenType::Output, 1)])
    );
    assert_eq!(tokenize("no symbols here"), Ok(vec![]));
}

#[test]
fn empty_source_gives_empty_program() {
    assert_eq!(tokenize(""), Ok(vec![]));
    let text = compile("").unwrap();
    assert!(text.starts_with("format ELF64 executable 3\n"));
    assert!(text.ends_with("bf_stack: rb 1000\n"));
    assert!(!text.contains("jump_label_"));
}

#[test]
fn close_before_open_is_unmatched() {
    assert_eq!(tokenize("+][+"), Err(LexError::UnmatchedClose));
    assert_eq!(tokenize("[[]"), Err(LexError::UnmatchedOpen));
    assert_eq!(tokenize("[]]"), Err(LexError::UnmatchedClose));
}

#[test]
fn lexer_walks_symbols() {
    let mut lexer = Lexer::new("x>>y,");
    assert_eq!(
        lexer.lex(),
        Ok(vec![tok(TokenType::Right, 2), tok(TokenType::Input, 1)])
    );
}

#[test]
fn generation_is_reproducible() {
    let ir = tokenize("++[>+++<-]>.").unwrap();
    let first = generate_assembly(&ir).unwrap();
    let second = generate_assembly(&ir).unwrap();
    assert_eq!(first, second);
}

#[test]
fn peephole_picks_the_form() {
    let one = generate_assembly(&vec![
        tok(TokenType::Add, 1),
        tok(TokenType::Subtract, 1),
        tok(TokenType::Left, 1),
        tok(TokenType::Right, 1),
    ])
    .unwrap();
    assert!(one.contains("    inc byte[r8]\n    dec byte[r8]\n    dec r8\n    inc r8\n"));
    assert!(!one.contains("add byte[r8], "));
    assert!(!one.contains("sub r8, "));
    let many = generate_assembly(&vec![
        tok(TokenType::Add, 2),
        tok(TokenType::Subtract, 10),
        tok(TokenType::Left, 300),
        tok(TokenType::Right, 12345),
    ])
    .unwrap();
    assert!(many.contains(
        "    add byte[r8], 2\n    sub byte[r8], 10\n    sub r8, 300\n    add r8, 12345\n"
    ));
    assert!(!many.contains("inc"));
    assert!(!many.contains("dec"));
}

#[test]
fn loops_get_unique_labels() {
    let text = compile("[[-]]").unwrap();
    let body = [
        "    cmp byte [r8], 0\n    je jump_end_label_0\njump_label_0:\n",
        "    cmp byte [r8], 0\n    je jump_end_label_1\njump_label_1:\n",
        "    dec byte[r8]\n",
        "    cmp byte [r8], 0\n    jne jump_label_1\njump_end_label_1:\n",
        "    cmp byte [r8], 0\n    jne jump_label_0\njump_end_label_0:\n",
    ]
    .concat();
    assert!(text.contains(&body));
    assert!(text.find("    lea r8, [bf_stack]\n").unwrap() < text.find(&body).unwrap());
    assert!(text.find(&body).unwrap() < text.find("    mov rax, 60\n").unwrap());
}

#[test]
fn io_is_unrolled() {
    let text = compile("...,,").unwrap();
    assert_eq!(text.matches("    call write\n").count(), 3);
    assert_eq!(text.matches("    call read\n").count(), 2);
}

#[test]
fn unpaired_jumps_breach_integrity() {
    assert_eq!(
        generate_assembly(&vec![tok(TokenType::JumpIfNotZero, 0)]),
        Err(GenError::IntegrityViolation)
    );
    assert_eq!(
        generate_assembly(&vec![tok(TokenType::JumpIfZero, 2)]),
        Err(GenError::IntegrityViolation)
    );
}

#[test]
fn symbol_kinds() {
    assert_eq!(TokenType::from_symbol('+'), TokenType::Add);
    assert_eq!(TokenType::from_symbol('-'), TokenType::Subtract);
    assert_eq!(TokenType::from_symbol('<'), TokenType::Left);
    assert_eq!(TokenType::from_symbol('>'), TokenType::Right);
    assert_eq!(TokenType::from_symbol('.'), TokenType::Output);
    assert_eq!(TokenType::from_symbol(','), TokenType::Input);
    assert_eq!(TokenType::from_symbol('['), TokenType::JumpIfZero);
    assert_eq!(TokenType::from_symbol(']'), TokenType::JumpIfNotZero);
}
