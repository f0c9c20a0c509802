use vstd::prelude::*;

use crate::token::{Token, TokenType};

verus! {

/// A breach of the contract between the lexer and the generator: the loop
/// jumps handed to the generator do not pair up.
#[derive(Debug, Clone, Copy, PartialEq, Eq, Structural)]
pub enum GenError {
    IntegrityViolation,
}

/// The character of a decimal digit.
pub open spec fn digit_char(d: nat) -> char {
    if d == 0 {
        '0'
    } else if d == 1 {
        '1'
    } else if d == 2 {
        '2'
    } else if d == 3 {
        '3'
    } else if d == 4 {
        '4'
    } else if d == 5 {
        '5'
    } else if d == 6 {
        '6'
    } else if d == 7 {
        '7'
    } else if d == 8 {
        '8'
    } else {
        '9'
    }
}

/// The decimal notation of a number, without leading zeros.
pub open spec fn decimal(n: nat) -> Seq<char>
    decreases n,
{
    if n < 10 {
        seq![digit_char(n)]
    } else {
        decimal(n / 10) + seq![digit_char(n % 10)]
    }
}

/// `n` copies of `s`, one after the other.
pub open spec fn repeat(s: Seq<char>, n: nat) -> Seq<char>
    decreases n,
{
    if n == 0 {
        Seq::empty()
    } else {
        repeat(s, (n - 1) as nat) + s
    }
}

/// The single-step form of a cell or pointer change, used for an amount of one.
pub open spec fn single_step_form(kind: TokenType) -> Seq<char> {
    match kind {
        TokenType::Add => "    inc byte[r8]\n"@,
        TokenType::Subtract => "    dec byte[r8]\n"@,
        TokenType::Left => "    dec r8\n"@,
        _ => "    inc r8\n"@,
    }
}

/// The by-amount form of a cell or pointer change.
pub open spec fn by_amount_form(kind: TokenType, n: nat) -> Seq<char> {
    let op = match kind {
        TokenType::Add => "    add byte[r8], "@,
        TokenType::Subtract => "    sub byte[r8], "@,
        TokenType::Left => "    sub r8, "@,
        _ => "    add r8, "@,
    };
    op + decimal(n) + "\n"@
}

/// Whether a kind changes the cell or the pointer.
pub open spec fn is_change(kind: TokenType) -> bool {
    kind == TokenType::Add || kind == TokenType::Subtract || kind == TokenType::Left || kind
        == TokenType::Right
}

/// The text that opens the loop with label number `l`.
pub open spec fn loop_open_text(l: nat) -> Seq<char> {
    "    cmp byte [r8], 0\n"@ + "    je jump_end_label_"@ + decimal(l) + "\n"@ + "jump_label_"@
        + decimal(l) + ":\n"@
}

/// The text that closes the loop with label number `l`.
pub open spec fn loop_close_text(l: nat) -> Seq<char> {
    "    cmp byte [r8], 0\n"@ + "    jne jump_label_"@ + decimal(l) + "\n"@ + "jump_end_label_"@
        + decimal(l) + ":\n"@
}

/// The text of one instruction, given the next fresh label number and the
/// stack of label numbers of the loops open so far; with the counter and the
/// stack after it.
pub open spec fn emit_step(t: Token, counter: usize, labels: Seq<usize>) -> Result<
    (Seq<char>, usize, Seq<usize>),
    GenError,
> {
    match t.token_type {
        TokenType::Output => Ok((repeat("    call write\n"@, t.amount as nat), counter, labels)),
        TokenType::Input => Ok((repeat("    call read\n"@, t.amount as nat), counter, labels)),
        TokenType::JumpIfZero => Ok(
            (loop_open_text(counter as nat), (counter + 1) as usize, labels.push(counter)),
        ),
        TokenType::JumpIfNotZero => if labels.len() == 0 {
            Err(GenError::IntegrityViolation)
        } else {
            Ok((loop_close_text(labels.last() as nat), counter, labels.drop_last()))
        },
        _ => Ok(
            (
                if t.amount > 1 {
                    by_amount_form(t.token_type, t.amount as nat)
                } else {
                    single_step_form(t.token_type)
                },
                counter,
                labels,
            ),
        ),
    }
}

/// The text of a sequence of instructions, with the label counter and stack
/// after it, or the first integrity violation.
pub open spec fn gen_prefix(ts: Seq<Token>) -> Result<(Seq<char>, usize, Seq<usize>), GenError>
    decreases ts.len(),
{
    if ts.len() == 0 {
        Ok((Seq::empty(), 0, Seq::empty()))
    } else {
        match gen_prefix(ts.drop_last()) {
            Err(e) => Err(e),
            Ok((body, counter, labels)) => match emit_step(ts.last(), counter, labels) {
                Err(e) => Err(e),
                Ok((text, c, l)) => Ok((body + text, c, l)),
            },
        }
    }
}

/// The assembly program for a sequence of instructions: the fixed header, the
/// text of each instruction in order, and the fixed footer.
pub open spec fn generated(ts: Seq<Token>) -> Result<Seq<char>, GenError> {
    match gen_prefix(ts) {
        Err(e) => Err(e),
        Ok((body, _, labels)) => if labels.len() > 0 {
            Err(GenError::IntegrityViolation)
        } else {
            Ok(header_text() + body + footer_text())
        },
    }
}

/// The fixed header: the format directive, the system call numbers, the
/// read and write routines and the entry point that points at the tape.
pub open spec fn header_text() -> Seq<char> {
    r#"format ELF64 executable 3
SYS_read equ 0
SYS_write equ 1
SYS_exit equ 60

stdin equ 0
stdout equ 1

segment readable executable
entry main

write:
    mov rax, SYS_write
    mov rdi, stdout
    mov rsi, r8
    mov rdx, 1
    syscall
    ret

read:
    mov rax, SYS_read
    mov rdi, stdin
    mov rsi, r8
    mov rdx, 1
    syscall
    ret

main:
    lea r8, [bf_stack]
"#@
}

/// The fixed footer: the exit system call and the tape storage.
pub open spec fn footer_text() -> Seq<char> {
    r#"
    mov rax, 60
    mov rdi, 0
    syscall

segment readable writable
bf_stack: rb 1000
"#@
}

fn header() -> (r: &'static str)
    ensures
        r@ == header_text(),
{
    r#"format ELF64 executable 3
SYS_read equ 0
SYS_write equ 1
SYS_exit equ 60

stdin equ 0
stdout equ 1

segment readable executable
entry main

write:
    mov rax, SYS_write
    mov rdi, stdout
    mov rsi, r8
    mov rdx, 1
    syscall
    ret

read:
    mov rax, SYS_read
    mov rdi, stdin
    mov rsi, r8
    mov rdx, 1
    syscall
    ret

main:
    lea r8, [bf_stack]
"#
}

fn footer() -> (r: &'static str)
    ensures
        r@ == footer_text(),
{
    r#"
    mov rax, 60
    mov rdi, 0
    syscall

segment readable writable
bf_stack: rb 1000
"#
}

/// The view of an executable generation result.
pub open spec fn generated_view(r: Result<String, GenError>) -> Result<Seq<char>, GenError> {
    match r {
        Ok(s) => Ok(s@),
        Err(e) => Err(e),
    }
}

fn digit_str(d: usize) -> (r: &'static str)
    requires
        d < 10,
    ensures
        r@ == seq![digit_char(d as nat)],
{
    match d {
        0 => {
            proof {
                reveal_strlit("0");
            }
            "0"
        },
        1 => {
            proof {
                reveal_strlit("1");
            }
            "1"
        },
        2 => {
            proof {
                reveal_strlit("2");
            }
            "2"
        },
        3 => {
            proof {
                reveal_strlit("3");
            }
            "3"
        },
        4 => {
            proof {
                reveal_strlit("4");
            }
            "4"
        },
        5 => {
            proof {
                reveal_strlit("5");
            }
            "5"
        },
        6 => {
            proof {
                reveal_strlit("6");
            }
            "6"
        },
        7 => {
            proof {
                reveal_strlit("7");
            }
            "7"
        },
        8 => {
            proof {
                reveal_strlit("8");
            }
            "8"
        },
        _ => {
            proof {
                reveal_strlit("9");
            }
            "9"
        },
    }
}

/// Appends the decimal notation of `n`.
fn append_decimal(out: &mut String, n: usize)
    ensures
        final(out)@ == old(out)@ + decimal(n as nat),
    decreases n,
{
    if n >= 10 {
        append_decimal(out, n / 10);
    }
    out.append(digit_str(n % 10));
    proof {
        if n >= 10 {
            assert(old(out)@ + decimal(n as nat) =~= old(out)@ + decimal((n / 10) as nat) + seq![
                digit_char((n % 10) as nat),
            ]);
        } else {
            assert(old(out)@ + decimal(n as nat) =~= old(out)@ + seq![digit_char((n % 10) as nat)]);
        }
    }
}

/// Appends `n` copies of `line`.
fn append_repeated(out: &mut String, line: &str, n: usize)
    ensures
        final(out)@ == old(out)@ + repeat(line@, n as nat),
{
    let mut k: usize = 0;
    while k < n
        invariant
            k <= n,
            out@ == old(out)@ + repeat(line@, k as nat),
        decreases n - k,
    {
        out.append(line);
        k = k + 1;
        proof {
            assert(out@ =~= old(out)@ + repeat(line@, k as nat));
        }
    }
}

/// Appends the text of a by-amount change: the operation, the amount, the end of line.
fn append_by_amount(out: &mut String, op: &str, n: usize)
    ensures
        final(out)@ == old(out)@ + (op@ + decimal(n as nat) + "\n"@),
{
    out.append(op);
    append_decimal(out, n);
    out.append("\n");
    proof {
        assert(out@ =~= old(out)@ + (op@ + decimal(n as nat) + "\n"@));
    }
}

/// Appends the text of a loop jump: the zero test, the branch to `target`
/// label number `l`, and the definition of `defined` label number `l`.
fn append_jump(out: &mut String, branch: &str, defined: &str, l: usize)
    ensures
        final(out)@ == old(out)@ + ("    cmp byte [r8], 0\n"@ + branch@ + decimal(l as nat) + "\n"@
            + defined@ + decimal(l as nat) + ":\n"@),
{
    out.append("    cmp byte [r8], 0\n");
    out.append(branch);
    append_decimal(out, l);
    out.append("\n");
    out.append(defined);
    append_decimal(out, l);
    out.append(":\n");
    proof {
        assert(out@ =~= old(out)@ + ("    cmp byte [r8], 0\n"@ + branch@ + decimal(l as nat) + "\n"@
            + defined@ + decimal(l as nat) + ":\n"@));
    }
}

/// Appends the text of one instruction, updating the label counter and the
/// stack of open loop labels.
fn emit_token(
    output: &mut String,
    token: Token,
    jump_counter: &mut usize,
    jump_stack: &mut Vec<usize>,
) -> (r: Result<(), GenError>)
    requires
        *old(jump_counter) < usize::MAX,
    ensures
        match emit_step(token, *old(jump_counter), old(jump_stack)@) {
            Ok((text, c, l)) => {
                &&& r is Ok
                &&& final(output)@ == old(output)@ + text
                &&& *final(jump_counter) == c
                &&& final(jump_stack)@ == l
            },
            Err(e) => r == Err::<(), GenError>(e),
        },
{
    match token.token_type {
        TokenType::Add => {
            if token.amount > 1 {
                append_by_amount(output, "    add byte[r8], ", token.amount);
            } else {
                output.append("    inc byte[r8]\n");
            }
        },
        TokenType::Subtract => {
            if token.amount > 1 {
                append_by_amount(output, "    sub byte[r8], ", token.amount);
            } else {
                output.append("    dec byte[r8]\n");
            }
        },
        TokenType::Left => {
            if token.amount > 1 {
                append_by_amount(output, "    sub r8, ", token.amount);
            } else {
                output.append("    dec r8\n");
            }
        },
        TokenType::Right => {
            if token.amount > 1 {
                append_by_amount(output, "    add r8, ", token.amount);
            } else {
                output.append("    inc r8\n");
            }
        },
        TokenType::Output => {
            append_repeated(output, "    call write\n", token.amount);
        },
        TokenType::Input => {
            append_repeated(output, "    call read\n", token.amount);
        },
        TokenType::JumpIfZero => {
            append_jump(output, "    je jump_end_label_", "jump_label_", *jump_counter);
            jump_stack.push(*jump_counter);
            *jump_counter = *jump_counter + 1;
        },
        TokenType::JumpIfNotZero => {
            match jump_stack.pop() {
                Some(counter) => {
                    append_jump(output, "    jne jump_label_", "jump_end_label_", counter);
                },
                None => {
                    return Err(GenError::IntegrityViolation);
                },
            }
        },
    }
    Ok(())
}

proof fn lemma_gen_unfold(ts: Seq<Token>, k: int)
    requires
        0 <= k < ts.len(),
    ensures
        gen_prefix(ts.take(k + 1)) == match gen_prefix(ts.take(k)) {
            Err(e) => Err(e),
            Ok((body, counter, labels)) => match emit_step(ts[k], counter, labels) {
                Err(e) => Err(e),
                Ok((text, c, l)) => Ok((body + text, c, l)),
            },
        },
{
    assert(ts.take(k + 1).drop_last() =~= ts.take(k));
}

proof fn lemma_gen_error_persists(ts: Seq<Token>, k1: int, k2: int, e: GenError)
    requires
        0 <= k1 <= k2 <= ts.len(),
        gen_prefix(ts.take(k1)) == Err::<(Seq<char>, usize, Seq<usize>), GenError>(e),
    ensures
        gen_prefix(ts.take(k2)) == Err::<(Seq<char>, usize, Seq<usize>), GenError>(e),
    decreases k2 - k1,
{
    if k1 < k2 {
        lemma_gen_unfold(ts, k1);
        lemma_gen_error_persists(ts, k1 + 1, k2, e);
    }
}

/// The assembly program for a sequence of instructions. Loop labels are
/// numbered in the order in which the loops open, so that every label is
/// defined once in the whole program.
pub fn generate_assembly(tokens: &Vec<Token>) -> (r: Result<String, GenError>)
    ensures
        generated_view(r) == generated(tokens@),
{
    let mut output = String::from_str(header());
    let mut jump_stack: Vec<usize> = Vec::new();
    let mut jump_counter: usize = 0;
    let ghost mut body: Seq<char> = Seq::empty();
    let mut i: usize = 0;
    proof {
        assert(tokens@.take(0) =~= Seq::<Token>::empty());
    }
    while i < tokens.len()
        invariant
            i <= tokens.len(),
            jump_counter <= i,
            gen_prefix(tokens@.take(i as int)) == Ok::<(Seq<char>, usize, Seq<usize>), GenError>(
                (body, jump_counter, jump_stack@),
            ),
            output@ == header_text() + body,
        decreases tokens.len() - i,
    {
        proof {
            lemma_gen_unfold(tokens@, i as int);
        }
        let ghost before = output@;
        let ghost step = emit_step(tokens@[i as int], jump_counter, jump_stack@);
        match emit_token(&mut output, tokens[i], &mut jump_counter, &mut jump_stack) {
            Ok(()) => {},
            Err(e) => {
                proof {
                    lemma_gen_error_persists(tokens@, i + 1, tokens.len() as int, e);
                    assert(tokens@.take(tokens.len() as int) =~= tokens@);
                }
                return Err(e);
            },
        }
        proof {
            let text = step->Ok_0.0;
            assert(output@ == before + text);
            body = body + text;
            assert(output@ =~= header_text() + body);
        }
        i = i + 1;
    }
    proof {
        assert(tokens@.take(tokens.len() as int) =~= tokens@);
    }
    if jump_stack.len() > 0 {
        return Err(GenError::IntegrityViolation);
    }
    output.append(footer());
    Ok(output)
}

} // verus!
