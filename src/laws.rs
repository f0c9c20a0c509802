use vstd::prelude::*;

use crate::codegen::{
    by_amount_form, emit_step, generated, generated_view, is_change, single_step_form, GenError,
};
use crate::compiler::compiled;
use crate::lexer::{lex_prefix, lex_symbols, significant, LexError};
use crate::token::{is_run_symbol, is_symbol, kind_of, Token, TokenType};

verus! {

/// `n` copies of the symbol `c`.
pub open spec fn run_of(c: char, n: nat) -> Seq<char> {
    Seq::new(n, |i: int| c)
}

proof fn lemma_run_prefix(c: char, n: nat, k: nat)
    requires
        is_run_symbol(c),
        1 <= k <= n <= usize::MAX,
    ensures
        lex_prefix(run_of(c, n).take(k as int)) == Ok::<(Seq<Token>, Seq<usize>), LexError>(
            (seq![Token { token_type: kind_of(c), amount: k as usize }], Seq::empty()),
        ),
    decreases k,
{
    let s = run_of(c, n).take(k as int);
    assert(s.last() == c);
    if k == 1 {
        assert(s.drop_last() =~= Seq::<char>::empty());
        assert(lex_prefix(s.drop_last()) == Ok::<(Seq<Token>, Seq<usize>), LexError>(
            (Seq::empty(), Seq::empty()),
        ));
        assert(Seq::<Token>::empty().push(Token { token_type: kind_of(c), amount: 1 }) =~= seq![
            Token { token_type: kind_of(c), amount: 1 },
        ]);
    } else {
        lemma_run_prefix(c, n, (k - 1) as nat);
        assert(s.drop_last() =~= run_of(c, n).take(k - 1));
        assert(seq![Token { token_type: kind_of(c), amount: (k - 1) as usize }].update(
            0,
            Token { token_type: kind_of(c), amount: k as usize },
        ) =~= seq![Token { token_type: kind_of(c), amount: k as usize }]);
    }
}

/// A run of `n` copies of one non-bracket symbol becomes exactly one
/// instruction of that symbol's kind, whose amount is `n`.
pub proof fn lemma_run_compresses(c: char, n: nat)
    requires
        is_run_symbol(c),
        1 <= n <= usize::MAX,
    ensures
        lex_symbols(run_of(c, n)) == Ok::<Seq<Token>, LexError>(
            seq![Token { token_type: kind_of(c), amount: n as usize }],
        ),
{
    lemma_run_prefix(c, n, n);
    assert(run_of(c, n).take(n as int) =~= run_of(c, n));
}

proof fn lemma_second_run_prefix(c: char, n: nat, d: char, m: nat, k: nat)
    requires
        is_run_symbol(c),
        is_run_symbol(d),
        c != d,
        1 <= n <= usize::MAX,
        1 <= k <= m <= usize::MAX,
    ensures
        lex_prefix((run_of(c, n) + run_of(d, m)).take((n + k) as int)) == Ok::<
            (Seq<Token>, Seq<usize>),
            LexError,
        >(
            (
                seq![
                    Token { token_type: kind_of(c), amount: n as usize },
                    Token { token_type: kind_of(d), amount: k as usize },
                ],
                Seq::empty(),
            ),
        ),
    decreases k,
{
    let s = (run_of(c, n) + run_of(d, m)).take((n + k) as int);
    if k == 1 {
        lemma_run_prefix(c, n, n);
        assert(s.drop_last() =~= run_of(c, n).take(n as int));
        assert(s.last() == d);
        assert(seq![Token { token_type: kind_of(c), amount: n as usize }].push(
            Token { token_type: kind_of(d), amount: 1 },
        ) =~= seq![
            Token { token_type: kind_of(c), amount: n as usize },
            Token { token_type: kind_of(d), amount: 1 },
        ]);
    } else {
        lemma_second_run_prefix(c, n, d, m, (k - 1) as nat);
        assert(s.last() == d);
        assert(s.drop_last() =~= (run_of(c, n) + run_of(d, m)).take(n + k - 1));
        assert(seq![
            Token { token_type: kind_of(c), amount: n as usize },
            Token { token_type: kind_of(d), amount: (k - 1) as usize },
        ].update(1, Token { token_type: kind_of(d), amount: k as usize }) =~= seq![
            Token { token_type: kind_of(c), amount: n as usize },
            Token { token_type: kind_of(d), amount: k as usize },
        ]);
    }
}

/// Two runs of different non-bracket symbols, one after the other, never
/// merge: they become two instructions, each with its own run's length.
pub proof fn lemma_runs_stay_apart(c: char, n: nat, d: char, m: nat)
    requires
        is_run_symbol(c),
        is_run_symbol(d),
        c != d,
        1 <= n <= usize::MAX,
        1 <= m <= usize::MAX,
    ensures
        lex_symbols(run_of(c, n) + run_of(d, m)) == Ok::<Seq<Token>, LexError>(
            seq![
                Token { token_type: kind_of(c), amount: n as usize },
                Token { token_type: kind_of(d), amount: m as usize },
            ],
        ),
{
    lemma_second_run_prefix(c, n, d, m, m);
    assert((run_of(c, n) + run_of(d, m)).take((n + m) as int) =~= run_of(c, n) + run_of(d, m));
}

/// Whether every character is a significant symbol.
pub open spec fn all_symbols(s: Seq<char>) -> bool {
    forall|i: int| 0 <= i < s.len() ==> is_symbol(#[trigger] s[i])
}

proof fn lemma_significant_of_symbols(s: Seq<char>)
    requires
        all_symbols(s),
    ensures
        significant(s) == s,
    decreases s.len(),
{
    if s.len() > 0 {
        assert(all_symbols(s.drop_first())) by {
            assert forall|i: int| 0 <= i < s.drop_first().len() implies is_symbol(
                #[trigger] s.drop_first()[i],
            ) by {
                assert(s.drop_first()[i] == s[i + 1]);
            }
        }
        lemma_significant_of_symbols(s.drop_first());
        assert(seq![s[0]] + s.drop_first() =~= s);
    }
}

proof fn lemma_error_extends(p: Seq<char>, rest: Seq<char>, e: LexError)
    requires
        lex_prefix(p) == Err::<(Seq<Token>, Seq<usize>), LexError>(e),
    ensures
        lex_prefix(p + rest) == Err::<(Seq<Token>, Seq<usize>), LexError>(e),
    decreases rest.len(),
{
    if rest.len() == 0 {
        assert(p + rest =~= p);
    } else {
        lemma_error_extends(p, rest.drop_last(), e);
        assert((p + rest).drop_last() =~= p + rest.drop_last());
    }
}

/// A `]` that comes when no loop is open is reported as an unmatched close,
/// whatever follows it, and no program text is produced.
pub proof fn lemma_unmatched_close_rejected(p: Seq<char>, rest: Seq<char>)
    requires
        lex_prefix(p) is Ok,
        lex_prefix(p)->Ok_0.1.len() == 0,
    ensures
        lex_symbols(p.push(']') + rest) == Err::<Seq<Token>, LexError>(LexError::UnmatchedClose),
        all_symbols(p.push(']') + rest) ==> compiled(p.push(']') + rest) is Err,
{
    assert(p.push(']').drop_last() =~= p);
    lemma_error_extends(p.push(']'), rest, LexError::UnmatchedClose);
    if all_symbols(p.push(']') + rest) {
        lemma_significant_of_symbols(p.push(']') + rest);
    }
}

/// Symbols left open at the end of the input are reported as an unmatched
/// open, and no program text is produced.
pub proof fn lemma_unmatched_open_rejected(p: Seq<char>)
    requires
        lex_prefix(p) is Ok,
        lex_prefix(p)->Ok_0.1.len() > 0,
    ensures
        lex_symbols(p) == Err::<Seq<Token>, LexError>(LexError::UnmatchedOpen),
        all_symbols(p) ==> compiled(p) is Err,
{
    if all_symbols(p) {
        lemma_significant_of_symbols(p);
    }
}

/// Generation is reproducible: two results of generating from the same
/// instructions are the same program text, or the same error.
pub proof fn lemma_generation_reproducible(
    t1: Seq<Token>,
    t2: Seq<Token>,
    r1: Result<String, GenError>,
    r2: Result<String, GenError>,
)
    requires
        t1 == t2,
        generated_view(r1) == generated(t1),
        generated_view(r2) == generated(t2),
    ensures
        generated_view(r1) == generated_view(r2),
        r1 is Ok ==> r2 is Ok && r1->Ok_0@ == r2->Ok_0@,
{
}

/// A change of the cell or the pointer by one is emitted in the single-step
/// form, a larger change in the by-amount form, and no text of the one form
/// is ever a text of the other.
pub proof fn lemma_peephole(t: Token, counter: usize, labels: Seq<usize>)
    requires
        is_change(t.token_type),
    ensures
        emit_step(t, counter, labels) == Ok::<(Seq<char>, usize, Seq<usize>), GenError>(
            (
                if t.amount > 1 {
                    by_amount_form(t.token_type, t.amount as nat)
                } else {
                    single_step_form(t.token_type)
                },
                counter,
                labels,
            ),
        ),
        forall|n: nat| single_step_form(t.token_type) != #[trigger] by_amount_form(t.token_type, n),
{
    reveal_strlit("    inc byte[r8]\n");
    reveal_strlit("    dec byte[r8]\n");
    reveal_strlit("    dec r8\n");
    reveal_strlit("    inc r8\n");
    reveal_strlit("    add byte[r8], ");
    reveal_strlit("    sub byte[r8], ");
    reveal_strlit("    sub r8, ");
    reveal_strlit("    add r8, ");
    assert forall|n: nat| single_step_form(t.token_type) != #[trigger] by_amount_form(
        t.token_type,
        n,
    ) by {
        assert(single_step_form(t.token_type)[4] != by_amount_form(t.token_type, n)[4]);
    }
}

/// The number of instructions of kind `k`.
pub open spec fn count_kind(ts: Seq<Token>, k: TokenType) -> nat
    decreases ts.len(),
{
    if ts.len() == 0 {
        0
    } else {
        count_kind(ts.drop_last(), k) + if ts.last().token_type == k {
            1nat
        } else {
            0nat
        }
    }
}

/// The open at `i` is paired: its amount `a` is at least two, and slot
/// `i + a - 1` holds a close whose amount is `a - 2`.
pub open spec fn open_paired(ts: Seq<Token>, i: int) -> bool {
    let a = ts[i].amount as int;
    &&& a >= 2
    &&& i + a - 1 < ts.len()
    &&& ts[i + a - 1] == Token { token_type: TokenType::JumpIfNotZero, amount: (a - 2) as usize }
}

/// The close at `j` is paired: with its amount `b`, slot `j - b - 1` holds an
/// open whose amount is `b + 2`.
pub open spec fn close_paired(ts: Seq<Token>, j: int) -> bool {
    let b = ts[j].amount as int;
    &&& j - b - 1 >= 0
    &&& ts[j - b - 1] == Token { token_type: TokenType::JumpIfZero, amount: (b + 2) as usize }
}

proof fn lemma_count_push(ts: Seq<Token>, v: Token, k: TokenType)
    ensures
        count_kind(ts.push(v), k) == count_kind(ts, k) + if v.token_type == k {
            1nat
        } else {
            0nat
        },
{
    assert(ts.push(v).drop_last() =~= ts);
}

proof fn lemma_count_update(ts: Seq<Token>, i: int, v: Token, k: TokenType)
    requires
        0 <= i < ts.len(),
        v.token_type == ts[i].token_type,
    ensures
        count_kind(ts.update(i, v), k) == count_kind(ts, k),
    decreases ts.len(),
{
    let u = ts.update(i, v);
    if i == ts.len() - 1 {
        assert(u.drop_last() =~= ts.drop_last());
    } else {
        lemma_count_update(ts.drop_last(), i, v, k);
        assert(u.drop_last() =~= ts.drop_last().update(i, v));
    }
}

/// What holds of the instructions and the open-loop stack after any prefix.
spec fn lex_inv(ts: Seq<Token>, s: Seq<usize>, n: nat) -> bool {
    &&& ts.len() <= n
    &&& count_kind(ts, TokenType::JumpIfZero) == count_kind(ts, TokenType::JumpIfNotZero) + s.len()
    &&& forall|k: int|
        0 <= k < s.len() ==> #[trigger] s[k] < ts.len() && ts[s[k] as int] == Token {
            token_type: TokenType::JumpIfZero,
            amount: 0,
        }
    &&& forall|k1: int, k2: int| 0 <= k1 < k2 < s.len() ==> s[k1] < s[k2]
    &&& forall|i: int|
        0 <= i < ts.len() && #[trigger] ts[i].token_type == TokenType::JumpIfZero && (forall|
            k: int,
        | 0 <= k < s.len() ==> s[k] != i) ==> open_paired(ts, i)
    &&& forall|j: int|
        0 <= j < ts.len() && #[trigger] ts[j].token_type == TokenType::JumpIfNotZero
            ==> close_paired(ts, j)
    &&& forall|i: int|
        0 <= i < ts.len() ==> #[trigger] ts[i].amount <= n && (!ts[i].token_type.is_jump()
            ==> ts[i].amount >= 1)
}

proof fn lemma_lex_inv(syms: Seq<char>)
    requires
        syms.len() <= usize::MAX,
        lex_prefix(syms) is Ok,
    ensures
        lex_inv(lex_prefix(syms)->Ok_0.0, lex_prefix(syms)->Ok_0.1, syms.len()),
    decreases syms.len(),
{
    if syms.len() == 0 {
        return;
    }
    let prev = syms.drop_last();
    lemma_lex_inv(prev);
    let ts = lex_prefix(prev)->Ok_0.0;
    let s = lex_prefix(prev)->Ok_0.1;
    let c = syms.last();
    let ts2 = lex_prefix(syms)->Ok_0.0;
    let s2 = lex_prefix(syms)->Ok_0.1;
    if is_run_symbol(c) {
        if ts.len() > 0 && ts.last().token_type == kind_of(c) {
            let last = ts.last();
            let v = Token { token_type: last.token_type, amount: (last.amount + 1) as usize };
            lemma_count_update(ts, ts.len() - 1, v, TokenType::JumpIfZero);
            lemma_count_update(ts, ts.len() - 1, v, TokenType::JumpIfNotZero);
            let li = ts.len() - 1;
            assert(ts2 == ts.update(li, v));
            assert(s2 == s);
            assert(!v.token_type.is_jump());
            assert forall|k: int| 0 <= k < s2.len() implies #[trigger] s2[k] < ts2.len() && ts2[s2[k] as int]
                == Token { token_type: TokenType::JumpIfZero, amount: 0 } by {
                assert(s[k] != li);
            }
            assert forall|i: int|
                0 <= i < ts2.len() && #[trigger] ts2[i].token_type == TokenType::JumpIfZero && (forall|
                    k: int,
                | 0 <= k < s2.len() ==> s2[k] != i) implies open_paired(ts2, i) by {
                assert(i != li);
                assert(open_paired(ts, i));
                assert(i + ts[i].amount - 1 != li);
            }
            assert forall|j: int|
                0 <= j < ts2.len() && #[trigger] ts2[j].token_type
                    == TokenType::JumpIfNotZero implies close_paired(ts2, j) by {
                assert(j != li);
                assert(close_paired(ts, j));
                assert(j - ts[j].amount - 1 != li);
            }
            assert(lex_inv(ts2, s2, syms.len()));
        } else {
            let v = Token { token_type: kind_of(c), amount: 1 };
            lemma_count_push(ts, v, TokenType::JumpIfZero);
            lemma_count_push(ts, v, TokenType::JumpIfNotZero);
            assert(lex_inv(ts2, s2, syms.len()));
        }
    } else if c == '[' {
        let v = Token { token_type: TokenType::JumpIfZero, amount: 0 };
        lemma_count_push(ts, v, TokenType::JumpIfZero);
        lemma_count_push(ts, v, TokenType::JumpIfNotZero);
        assert(ts2 == ts.push(v));
        assert(s2 == s.push(ts.len() as usize));
        assert forall|k: int| 0 <= k < s2.len() implies #[trigger] s2[k] < ts2.len() && ts2[s2[k] as int]
            == Token { token_type: TokenType::JumpIfZero, amount: 0 } by {
            if k < s.len() {
                assert(s2[k] == s[k]);
            }
        }
        assert forall|k1: int, k2: int| 0 <= k1 < k2 < s2.len() implies s2[k1] < s2[k2] by {
            assert(s2[k1] == s[k1]);
            if k2 < s.len() {
                assert(s2[k2] == s[k2]);
            }
        }
        assert forall|i: int|
            0 <= i < ts2.len() && #[trigger] ts2[i].token_type == TokenType::JumpIfZero && (forall|
                k: int,
            | 0 <= k < s2.len() ==> s2[k] != i) implies open_paired(ts2, i) by {
            assert(s2[s.len() as int] == ts.len());
            assert(i < ts.len());
            assert(forall|k: int| 0 <= k < s.len() ==> s[k] != i) by {
                assert forall|k: int| 0 <= k < s.len() implies s[k] != i by {
                    assert(s2[k] == s[k]);
                }
            }
            assert(open_paired(ts, i));
        }
        assert forall|j: int|
            0 <= j < ts2.len() && #[trigger] ts2[j].token_type
                == TokenType::JumpIfNotZero implies close_paired(ts2, j) by {
            assert(close_paired(ts, j));
        }
        assert(lex_inv(ts2, s2, syms.len()));
    } else if c == ']' {
        let pos = s.last() as int;
        let diff = ts.len() - pos;
        let close = Token { token_type: TokenType::JumpIfNotZero, amount: (diff - 1) as usize };
        let open = Token { token_type: TokenType::JumpIfZero, amount: (diff + 1) as usize };
        let pushed = ts.push(close);
        lemma_count_push(ts, close, TokenType::JumpIfZero);
        lemma_count_push(ts, close, TokenType::JumpIfNotZero);
        lemma_count_update(pushed, pos, open, TokenType::JumpIfZero);
        lemma_count_update(pushed, pos, open, TokenType::JumpIfNotZero);
        assert(ts2 == pushed.update(pos, open));
        assert(s2 == s.drop_last());
        assert(forall|k: int| 0 <= k < s2.len() ==> s2[k] < pos) by {
            assert forall|k: int| 0 <= k < s2.len() implies s2[k] < pos by {
                assert(s[k] < s[s.len() - 1]);
            }
        }
        assert forall|i: int|
            0 <= i < ts2.len() && #[trigger] ts2[i].token_type == TokenType::JumpIfZero && (forall|
                k: int,
            | 0 <= k < s2.len() ==> s2[k] != i) implies open_paired(ts2, i) by {
            if i != pos {
                assert(forall|k: int| 0 <= k < s.len() ==> s[k] != i) by {
                    assert forall|k: int| 0 <= k < s.len() implies s[k] != i by {
                        if k < s.len() - 1 {
                            assert(s2[k] == s[k]);
                        }
                    }
                }
                assert(open_paired(ts, i));
            }
        }
        assert forall|j: int|
            0 <= j < ts2.len() && #[trigger] ts2[j].token_type
                == TokenType::JumpIfNotZero implies close_paired(ts2, j) by {
            if j < ts.len() {
                assert(close_paired(ts, j));
            }
        }
        assert(lex_inv(ts2, s2, syms.len()));
    } else {
        assert(lex_inv(ts2, s2, syms.len()));
    }
}

/// In the instructions of every balanced text, loop opens and closes are
/// equally many, and each open and close are paired: the open's amount `a`
/// leads to the close at `a - 1` slots after it, the close's amount `b` leads
/// back to the open at `b + 1` slots before it, and `a == b + 2`. Every other
/// instruction has an amount of at least one.
pub proof fn lemma_jumps_paired(syms: Seq<char>)
    requires
        syms.len() <= usize::MAX,
        lex_symbols(syms) is Ok,
    ensures
        ({
            let ts = lex_symbols(syms)->Ok_0;
            &&& count_kind(ts, TokenType::JumpIfZero) == count_kind(ts, TokenType::JumpIfNotZero)
            &&& forall|i: int|
                0 <= i < ts.len() && #[trigger] ts[i].token_type == TokenType::JumpIfZero
                    ==> open_paired(ts, i)
            &&& forall|j: int|
                0 <= j < ts.len() && #[trigger] ts[j].token_type == TokenType::JumpIfNotZero
                    ==> close_paired(ts, j)
            &&& forall|i: int|
                0 <= i < ts.len() && !(#[trigger] ts[i].token_type).is_jump() ==> ts[i].amount >= 1
        }),
{
    lemma_lex_inv(syms);
}

} // verus!
