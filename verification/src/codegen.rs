//! The code generator: a token sequence to the flat word sequence the
//! machine executes.
//!
//! Emission is specified by [`asm_spec`]: label definitions emit nothing and
//! name the next word index; label references emit that index; a negative
//! number literal is materialized as its magnitude followed by `NEG`; a
//! string literal is a `0` sentinel followed by its code points in reverse
//! order; `PRINT` expands to a ten-word loop that pops and prints characters
//! in raw mode until the sentinel; every other mnemonic is one opcode word.
//! A final `NOP` pads the program so a trailing jump target is in range.
//!
//! A duplicate label definition, a reference to a label never defined, and a
//! program whose word count cannot be addressed by a 32-bit word are the
//! three failures; [`generate`] is proved to return exactly what `asm_spec`
//! says, errors included.
use vstd::prelude::*;

use crate::instructions::{CRF, DUP, JE, JMP, NEG, NOP, OUT, POP, RF};
use crate::lexer::{AsmError, AsmErrorV, Token, TokenV, toks_view};

verus! {

/// The largest emitted position: one word of padding must still fit below
/// `i32::MAX`, so that every label address and jump target is a valid word.
pub const CODE_LIMIT: usize = 2147483646;

/// The single opcode word of a plain mnemonic token (any token that is not a
/// label, literal or `PRINT`).
pub open spec fn plain_opcode(t: TokenV) -> i32 {
    match t {
        TokenV::In => crate::instructions::IN,
        TokenV::Out => crate::instructions::OUT,
        TokenV::Add => crate::instructions::ADD,
        TokenV::Sub => crate::instructions::SUB,
        TokenV::Mul => crate::instructions::MUL,
        TokenV::Div => crate::instructions::DIV,
        TokenV::Mod => crate::instructions::MOD,
        TokenV::Neg => crate::instructions::NEG,
        TokenV::Inc => crate::instructions::INC,
        TokenV::Dec => crate::instructions::DEC,
        TokenV::And => crate::instructions::AND,
        TokenV::Or => crate::instructions::OR,
        TokenV::Not => crate::instructions::NOT,
        TokenV::Xor => crate::instructions::XOR,
        TokenV::Shl => crate::instructions::SHL,
        TokenV::Shr => crate::instructions::SHR,
        TokenV::Pop => crate::instructions::POP,
        TokenV::Dup => crate::instructions::DUP,
        TokenV::Swp => crate::instructions::SWP,
        TokenV::Ovr => crate::instructions::OVR,
        TokenV::Load => crate::instructions::LOAD,
        TokenV::Stor => crate::instructions::STOR,
        TokenV::Jmp => crate::instructions::JMP,
        TokenV::Je => crate::instructions::JE,
        TokenV::Jne => crate::instructions::JNE,
        TokenV::Jg => crate::instructions::JG,
        TokenV::Jge => crate::instructions::JGE,
        TokenV::Jl => crate::instructions::JL,
        TokenV::Jle => crate::instructions::JLE,
        TokenV::Nop => crate::instructions::NOP,
        TokenV::Halt => crate::instructions::HALT,
        TokenV::Rf => crate::instructions::RF,
        TokenV::Crf => crate::instructions::CRF,
        _ => 0,
    }
}

/// The magnitude word of a number literal; the most negative word is its own
/// magnitude (two's complement).
pub open spec fn abs_word(v: i32) -> i32 {
    if v == i32::MIN {
        i32::MIN
    } else if v < 0 {
        (-v) as i32
    } else {
        v
    }
}

/// How many words a token emits.
pub open spec fn tok_len(t: TokenV) -> int {
    match t {
        TokenV::LabelDef(_) => 0,
        TokenV::LabelRef(_) => 1,
        TokenV::Number(v) => if v < 0 {
            2
        } else {
            1
        },
        TokenV::Str(cs) => 1 + cs.len() as int,
        TokenV::Print => 10,
        _ => 1,
    }
}

/// The word index at which token `i` starts.
pub open spec fn prefix_len(toks: Seq<TokenV>, i: int) -> int
    decreases i,
{
    if i <= 0 {
        0
    } else {
        prefix_len(toks, i - 1) + tok_len(toks[i - 1])
    }
}

/// The index of the first definition of label `n` at or after `i`, or the
/// token count if there is none.
pub open spec fn first_def_from(toks: Seq<TokenV>, n: Seq<char>, i: int) -> int
    decreases toks.len() - i,
{
    if i < 0 || i >= toks.len() {
        toks.len() as int
    } else if toks[i] == TokenV::LabelDef(n) {
        i
    } else {
        first_def_from(toks, n, i + 1)
    }
}

/// Whether some token in `[0, i)` defines label `n`.
pub open spec fn has_def_before(toks: Seq<TokenV>, n: Seq<char>, i: int) -> bool {
    exists|k: int| 0 <= k < i && toks[k] == TokenV::LabelDef(n)
}

pub open spec fn has_def(toks: Seq<TokenV>, n: Seq<char>) -> bool {
    has_def_before(toks, n, toks.len() as int)
}

/// The word index a reference to `n` resolves to: where the first definition
/// of `n` stands.
pub open spec fn label_addr(toks: Seq<TokenV>, n: Seq<char>) -> int {
    prefix_len(toks, first_def_from(toks, n, 0))
}

/// The words token `t` emits when it starts at word index `pos`.
pub open spec fn words_of(t: TokenV, pos: int, toks: Seq<TokenV>) -> Seq<i32> {
    match t {
        TokenV::LabelDef(_) => Seq::empty(),
        TokenV::LabelRef(n) => seq![label_addr(toks, n) as i32],
        TokenV::Number(v) => if v < 0 {
            seq![abs_word(v), NEG]
        } else {
            seq![v]
        },
        TokenV::Str(cs) => seq![0i32] + Seq::new(
            cs.len(),
            |k: int| (cs[cs.len() - 1 - k] as u32) as i32,
        ),
        TokenV::Print => seq![
            RF,
            DUP,
            0i32,
            (pos + 8) as i32,
            JE,
            OUT,
            (pos + 1) as i32,
            JMP,
            CRF,
            POP,
        ],
        _ => seq![plain_opcode(t)],
    }
}

/// The words of the first `i` tokens, label references already resolved.
pub open spec fn emit_upto(toks: Seq<TokenV>, i: int) -> Seq<i32>
    decreases i,
{
    if i <= 0 {
        Seq::empty()
    } else {
        emit_upto(toks, i - 1) + words_of(toks[i - 1], prefix_len(toks, i - 1), toks)
    }
}

/// The label that token `j` defines for the second time, if any.
pub open spec fn dup_name_at(toks: Seq<TokenV>, j: int) -> Option<Seq<char>> {
    match toks[j] {
        TokenV::LabelDef(n) => if has_def_before(toks, n, j) {
            Some(n)
        } else {
            None
        },
        _ => None,
    }
}

/// The first pass over the first `i` tokens: the word index after them, or
/// the first duplicate-label or size failure.
pub open spec fn pass1(toks: Seq<TokenV>, i: int) -> Result<int, AsmErrorV>
    decreases i,
{
    if i <= 0 {
        Ok(0)
    } else {
        match pass1(toks, i - 1) {
            Err(e) => Err(e),
            Ok(pos) => match dup_name_at(toks, i - 1) {
                Some(n) => Err(AsmErrorV::DuplicateLabel(n)),
                None => if pos + tok_len(toks[i - 1]) > CODE_LIMIT {
                    Err(AsmErrorV::ProgramTooLarge)
                } else {
                    Ok(pos + tok_len(toks[i - 1]))
                },
            },
        }
    }
}

/// The name of the first reference (at or after `i`) to a label that is
/// never defined.
pub open spec fn first_undef_from(toks: Seq<TokenV>, i: int) -> Option<Seq<char>>
    decreases toks.len() - i,
{
    if i < 0 || i >= toks.len() {
        None
    } else {
        match toks[i] {
            TokenV::LabelRef(n) => if !has_def(toks, n) {
                Some(n)
            } else {
                first_undef_from(toks, i + 1)
            },
            _ => first_undef_from(toks, i + 1),
        }
    }
}

/// What assembly returns: the emitted words plus the final `NOP` pad, or the
/// first error — duplicate labels (in token order), then undefined
/// references (in token order), then excessive size.
pub open spec fn asm_spec(toks: Seq<TokenV>) -> Result<Seq<i32>, AsmErrorV> {
    match pass1(toks, toks.len() as int) {
        Err(e) => Err(e),
        Ok(_) => match first_undef_from(toks, 0) {
            Some(n) => Err(AsmErrorV::UndefinedLabel(n)),
            None => Ok(emit_upto(toks, toks.len() as int) + seq![NOP]),
        },
    }
}

// --- facts about the passes ---

/// Every token emits a non-negative number of words.
pub proof fn lemma_tok_len_nonneg(t: TokenV)
    ensures
        tok_len(t) >= 0,
{
}

/// A successful first pass returns the total emitted length, and every
/// prefix also passes, within the size limit.
pub proof fn lemma_pass1_ok(toks: Seq<TokenV>, i: int)
    requires
        pass1(toks, i) is Ok,
    ensures
        pass1(toks, i)->Ok_0 == prefix_len(toks, i),
        0 <= prefix_len(toks, i) <= CODE_LIMIT,
        forall|j: int| 0 <= j <= i ==> #[trigger] pass1(toks, j) is Ok,
    decreases i,
{
    if i > 0 {
        lemma_pass1_ok(toks, i - 1);
        lemma_tok_len_nonneg(toks[i - 1]);
        assert(forall|j: int|
            0 <= j <= i ==> j == i || (0 <= j <= i - 1 && #[trigger] pass1(toks, j) is Ok));
    }
}

/// A failed first pass stays failed however many more tokens follow.
pub proof fn lemma_pass1_err_persists(toks: Seq<TokenV>, i: int, j: int)
    requires
        0 <= i <= j,
        pass1(toks, i) is Err,
    ensures
        pass1(toks, j) == pass1(toks, i),
    decreases j - i,
{
    if j > i {
        lemma_pass1_err_persists(toks, i, j - 1);
    }
}

/// The emitted words of the first `i` tokens take exactly `prefix_len` slots.
pub proof fn lemma_emit_len(toks: Seq<TokenV>, i: int)
    requires
        i <= toks.len(),
    ensures
        emit_upto(toks, i).len() == if i <= 0 {
            0
        } else {
            prefix_len(toks, i)
        },
    decreases i,
{
    if i > 0 {
        lemma_emit_len(toks, i - 1);
    }
}

/// A label not yet defined and defined at `i` resolves to `i`.
pub proof fn lemma_first_def_here(toks: Seq<TokenV>, n: Seq<char>, i: int, k: int)
    requires
        0 <= k <= i < toks.len(),
        toks[i] == TokenV::LabelDef(n),
        forall|j: int| k <= j < i ==> toks[j] != TokenV::LabelDef(n),
    ensures
        first_def_from(toks, n, k) == i,
    decreases i - k,
{
    if k < i {
        lemma_first_def_here(toks, n, i, k + 1);
    }
}

/// When no reference is undefined, every referenced label is defined.
pub proof fn lemma_no_undef(toks: Seq<TokenV>, i: int, k: int)
    requires
        0 <= k <= i < toks.len(),
        first_undef_from(toks, k) is None,
        toks[i] matches TokenV::LabelRef(n),
    ensures
        toks[i] matches TokenV::LabelRef(n) ==> has_def(toks, n),
    decreases i - k,
{
    if k < i {
        lemma_no_undef(toks, i, k + 1);
    }
}

// --- the label table ---

struct LabelEntry {
    name: Vec<char>,
    addr: usize,
}

/// The table holds exactly the labels defined among the first `i` tokens,
/// each with the word index its references resolve to.
spec fn table_wf(tab: Seq<LabelEntry>, toks: Seq<TokenV>, i: int) -> bool {
    &&& forall|k: int|
        0 <= k < tab.len() ==> has_def_before(toks, #[trigger] tab[k].name@, i) && tab[k].addr
            == label_addr(toks, tab[k].name@) && tab[k].addr <= CODE_LIMIT
    &&& forall|n: Seq<char>|
        #[trigger] has_def_before(toks, n, i) ==> exists|k: int|
            0 <= k < tab.len() && #[trigger] tab[k].name@ == n
}

/// An owned copy of a label name.
fn copy_chars(a: &Vec<char>) -> (r: Vec<char>)
    ensures
        r@ == a@,
{
    let mut r: Vec<char> = Vec::new();
    let mut j: usize = 0;
    #[verifier::loop_isolation(false)]
    while j < a.len()
        invariant
            j <= a@.len(),
            r@ == a@.take(j as int),
        decreases a@.len() - j,
    {
        r.push(a[j]);
        proof {
            assert(r@ =~= a@.take(j + 1));
        }
        j += 1;
    }
    proof {
        assert(a@.take(a@.len() as int) =~= a@);
    }
    r
}

fn eq_chars(a: &Vec<char>, b: &Vec<char>) -> (r: bool)
    ensures
        r == (a@ == b@),
{
    if a.len() != b.len() {
        return false;
    }
    let mut j: usize = 0;
    #[verifier::loop_isolation(false)]
    while j < a.len()
        invariant
            j <= a@.len(),
            a@.len() == b@.len(),
            forall|t: int| 0 <= t < j ==> a@[t] == b@[t],
        decreases a@.len() - j,
    {
        if a[j] != b[j] {
            return false;
        }
        j += 1;
    }
    proof {
        assert(a@ =~= b@);
    }
    true
}

fn lookup_label(tab: &Vec<LabelEntry>, name: &Vec<char>) -> (r: Option<usize>)
    ensures
        match r {
            Some(a) => exists|k: int|
                0 <= k < tab@.len() && #[trigger] tab@[k].name@ == name@ && tab@[k].addr == a,
            None => forall|k: int| 0 <= k < tab@.len() ==> #[trigger] tab@[k].name@ != name@,
        },
{
    let mut j: usize = 0;
    #[verifier::loop_isolation(false)]
    while j < tab.len()
        invariant
            j <= tab@.len(),
            forall|t: int| 0 <= t < j ==> #[trigger] tab@[t].name@ != name@,
        decreases tab@.len() - j,
    {
        if eq_chars(&tab[j].name, name) {
            return Some(tab[j].addr);
        }
        j += 1;
    }
    None
}

// --- emission helpers ---

/// Append the words of a string literal: the `0` sentinel, then the code
/// points in reverse order.
fn generate_string(code: &mut Vec<i32>, s: &Vec<char>)
    ensures
        final(code)@ == old(code)@ + words_of(TokenV::Str(s@), old(code)@.len() as int, Seq::empty()),
{
    let ghost base = code@;
    code.push(0);
    let mut k: usize = 0;
    #[verifier::loop_isolation(false)]
    while k < s.len()
        invariant
            k <= s@.len(),
            code@ == base + seq![0i32] + Seq::new(k as nat, |t: int| (s@[s@.len() - 1 - t] as u32) as i32),
        decreases s@.len() - k,
    {
        let c = s[s.len() - 1 - k];
        code.push(c as u32 as i32);
        proof {
            assert(code@ =~= base + seq![0i32] + Seq::new(
                (k + 1) as nat,
                |t: int| (s@[s@.len() - 1 - t] as u32) as i32,
            ));
        }
        k += 1;
    }
    proof {
        assert(code@ =~= base + words_of(TokenV::Str(s@), base.len() as int, Seq::empty()));
    }
}

/// Append the words of a number literal: the magnitude, then `NEG` if the
/// literal was negative.
fn generate_number(code: &mut Vec<i32>, v: i32)
    ensures
        final(code)@ == old(code)@ + words_of(TokenV::Number(v), old(code)@.len() as int, Seq::empty()),
{
    if v >= 0 {
        code.push(v);
    } else if v == i32::MIN {
        code.push(i32::MIN);
        code.push(NEG);
    } else {
        code.push(-v);
        code.push(NEG);
    }
    proof {
        assert(code@ =~= old(code)@ + words_of(
            TokenV::Number(v),
            old(code)@.len() as int,
            Seq::empty(),
        ));
    }
}

/// Append the ten-word `PRINT` expansion: a raw-mode loop that pops and
/// prints characters until the `0` sentinel, then drops the sentinel.
fn generate_print(code: &mut Vec<i32>)
    requires
        old(code)@.len() + 10 <= CODE_LIMIT,
    ensures
        final(code)@ == old(code)@ + words_of(TokenV::Print, old(code)@.len() as int, Seq::empty()),
{
    code.push(RF);
    let prn = code.len();
    let end = prn + 7;
    code.push(DUP);
    code.push(0);
    code.push(end as i32);
    code.push(JE);
    code.push(OUT);
    code.push(prn as i32);
    code.push(JMP);
    code.push(CRF);
    code.push(POP);
    proof {
        assert(code@ =~= old(code)@ + words_of(
            TokenV::Print,
            old(code)@.len() as int,
            Seq::empty(),
        ));
    }
}

/// The opcode word of a plain mnemonic token.
fn mnemonic_opcode(t: &Token) -> (r: i32)
    ensures
        r == plain_opcode(t@),
{
    match t {
        Token::In => crate::instructions::IN,
        Token::Out => crate::instructions::OUT,
        Token::Add => crate::instructions::ADD,
        Token::Sub => crate::instructions::SUB,
        Token::Mul => crate::instructions::MUL,
        Token::Div => crate::instructions::DIV,
        Token::Mod => crate::instructions::MOD,
        Token::Neg => crate::instructions::NEG,
        Token::Inc => crate::instructions::INC,
        Token::Dec => crate::instructions::DEC,
        Token::And => crate::instructions::AND,
        Token::Or => crate::instructions::OR,
        Token::Not => crate::instructions::NOT,
        Token::Xor => crate::instructions::XOR,
        Token::Shl => crate::instructions::SHL,
        Token::Shr => crate::instructions::SHR,
        Token::Pop => crate::instructions::POP,
        Token::Dup => crate::instructions::DUP,
        Token::Swp => crate::instructions::SWP,
        Token::Ovr => crate::instructions::OVR,
        Token::Load => crate::instructions::LOAD,
        Token::Stor => crate::instructions::STOR,
        Token::Jmp => crate::instructions::JMP,
        Token::Je => crate::instructions::JE,
        Token::Jne => crate::instructions::JNE,
        Token::Jg => crate::instructions::JG,
        Token::Jge => crate::instructions::JGE,
        Token::Jl => crate::instructions::JL,
        Token::Jle => crate::instructions::JLE,
        Token::Nop => crate::instructions::NOP,
        Token::Halt => crate::instructions::HALT,
        Token::Rf => crate::instructions::RF,
        Token::Crf => crate::instructions::CRF,
        _ => 0,
    }
}

/// Assemble a token sequence into bytecode: exactly [`asm_spec`], errors
/// included.
pub fn generate(tokens: &Vec<Token>) -> (r: Result<Vec<i32>, AsmError>)
    ensures
        r is Ok ==> asm_spec(toks_view(tokens@)) == Ok::<Seq<i32>, AsmErrorV>(r->Ok_0@),
        r is Err ==> asm_spec(toks_view(tokens@)) == Err::<Seq<i32>, AsmErrorV>(r->Err_0@),
{
    let ghost tv = toks_view(tokens@);
    let n = tokens.len();

    // First pass: label addresses, duplicate labels, total size.
    let mut labels: Vec<LabelEntry> = Vec::new();
    let mut pos: usize = 0;
    let mut i: usize = 0;
    #[verifier::loop_isolation(false)]
    while i < n
        invariant
            i <= n,
            n == tv.len(),
            pass1(tv, i as int) == Ok::<int, AsmErrorV>(pos as int),
            pos <= CODE_LIMIT,
            table_wf(labels@, tv, i as int),
        decreases n - i,
    {
        proof {
            lemma_pass1_ok(tv, i as int);
        }
        match &tokens[i] {
            Token::LabelDef(name) => {
                match lookup_label(&labels, name) {
                    Some(_) => {
                        proof {
                            assert(has_def_before(tv, name@, i as int));
                            assert(pass1(tv, i + 1) == Err::<int, AsmErrorV>(
                                AsmErrorV::DuplicateLabel(name@),
                            ));
                            lemma_pass1_err_persists(tv, i + 1, n as int);
                        }
                        return Err(AsmError::DuplicateLabel(copy_chars(name)));
                    },
                    None => {
                        proof {
                            assert(!has_def_before(tv, name@, i as int));
                            assert(forall|j: int|
                                0 <= j < i ==> tv[j] != TokenV::LabelDef(name@));
                            lemma_first_def_here(tv, name@, i as int, 0);
                        }
                        let ghost tab0 = labels@;
                        let entry = LabelEntry { name: copy_chars(name), addr: pos };
                        labels.push(entry);
                        proof {
                            assert(tv[i as int] == TokenV::LabelDef(name@));
                            assert(labels@.len() == tab0.len() + 1);
                            assert(labels@[tab0.len() as int].name@ == name@);
                            assert(forall|k: int| 0 <= k < tab0.len() ==> labels@[k] == tab0[k]);
                            assert forall|k: int| 0 <= k < labels@.len() implies has_def_before(
                                tv,
                                #[trigger] labels@[k].name@,
                                i + 1,
                            ) && labels@[k].addr == label_addr(tv, labels@[k].name@)
                                && labels@[k].addr <= CODE_LIMIT by {
                                if k < tab0.len() {
                                    assert(has_def_before(tv, tab0[k].name@, i as int));
                                    let w = choose|w: int|
                                        0 <= w < i && tv[w] == TokenV::LabelDef(tab0[k].name@);
                                    assert(0 <= w < i + 1 && tv[w] == TokenV::LabelDef(
                                        labels@[k].name@,
                                    ));
                                } else {
                                    assert(tv[i as int] == TokenV::LabelDef(labels@[k].name@));
                                }
                            }
                            assert forall|m: Seq<char>| #[trigger] has_def_before(
                                tv,
                                m,
                                i + 1,
                            ) implies exists|k: int|
                                0 <= k < labels@.len() && #[trigger] labels@[k].name@ == m by {
                                let w = choose|w: int|
                                    0 <= w < i + 1 && tv[w] == TokenV::LabelDef(m);
                                if w < i {
                                    assert(has_def_before(tv, m, i as int));
                                    let k0 = choose|k0: int|
                                        0 <= k0 < tab0.len() && #[trigger] tab0[k0].name@ == m;
                                    assert(labels@[k0].name@ == m);
                                } else {
                                    assert(labels@[tab0.len() as int].name@ == m);
                                }
                            }
                        }
                    },
                }
            },
            t => {
                let need: usize = match t {
                    Token::LabelRef(_) => 1,
                    Token::Number(v) => if *v < 0 {
                        2
                    } else {
                        1
                    },
                    Token::Str(cs) => {
                        if cs.len() >= CODE_LIMIT {
                            proof {
                                assert(pass1(tv, i + 1) == Err::<int, AsmErrorV>(
                                    AsmErrorV::ProgramTooLarge,
                                ));
                                lemma_pass1_err_persists(tv, i + 1, n as int);
                            }
                            return Err(AsmError::ProgramTooLarge);
                        }
                        cs.len() + 1
                    },
                    Token::Print => 10,
                    _ => 1,
                };
                proof {
                    assert(need == tok_len(tv[i as int]));
                    assert(dup_name_at(tv, i as int) is None);
                }
                if need > CODE_LIMIT - pos {
                    proof {
                        assert(pass1(tv, i + 1) == Err::<int, AsmErrorV>(
                            AsmErrorV::ProgramTooLarge,
                        ));
                        lemma_pass1_err_persists(tv, i + 1, n as int);
                    }
                    return Err(AsmError::ProgramTooLarge);
                }
                pos += need;
                proof {
                    assert forall|m: Seq<char>| #[trigger] has_def_before(
                        tv,
                        m,
                        i + 1,
                    ) implies has_def_before(tv, m, i as int) by {
                        let w = choose|w: int| 0 <= w < i + 1 && tv[w] == TokenV::LabelDef(m);
                        assert(w < i);
                    }
                }
            },
        }
        i += 1;
    }
    proof {
        lemma_pass1_ok(tv, n as int);
    }

    // Second pass: every referenced label must be defined somewhere.
    let mut i2: usize = 0;
    #[verifier::loop_isolation(false)]
    while i2 < n
        invariant
            i2 <= n,
            first_undef_from(tv, 0) == first_undef_from(tv, i2 as int),
        decreases n - i2,
    {
        match &tokens[i2] {
            Token::LabelRef(name) => {
                match lookup_label(&labels, name) {
                    Some(_) => {
                        proof {
                            assert(has_def_before(tv, name@, n as int));
                        }
                    },
                    None => {
                        proof {
                            assert(!has_def(tv, name@));
                            assert(first_undef_from(tv, i2 as int) == Some(name@));
                        }
                        return Err(AsmError::UndefinedLabel(copy_chars(name)));
                    },
                }
            },
            _ => {},
        }
        i2 += 1;
    }

    // Third pass: emission, references resolved from the table.
    let mut code: Vec<i32> = Vec::new();
    let mut i3: usize = 0;
    #[verifier::loop_isolation(false)]
    while i3 < n
        invariant
            i3 <= n,
            code@ == emit_upto(tv, i3 as int),
            code@.len() == prefix_len(tv, i3 as int),
        decreases n - i3,
    {
        proof {
            lemma_pass1_ok(tv, n as int);
            assert(pass1(tv, i3 + 1) is Ok);
            lemma_pass1_ok(tv, i3 + 1);
            lemma_emit_len(tv, i3 as int);
        }
        let ghost p = prefix_len(tv, i3 as int);
        match &tokens[i3] {
            Token::LabelDef(_) => {
                proof {
                    assert(code@ =~= emit_upto(tv, i3 + 1));
                }
            },
            Token::LabelRef(name) => {
                match lookup_label(&labels, name) {
                    Some(a) => {
                        code.push(a as i32);
                        proof {
                            assert(a as i32 == label_addr(tv, name@) as i32);
                            assert(code@ =~= emit_upto(tv, i3 + 1));
                        }
                    },
                    None => {
                        proof {
                            lemma_no_undef(tv, i3 as int, 0);
                            assert(has_def_before(tv, name@, n as int));
                            assert(false);
                        }
                        return Err(AsmError::UndefinedLabel(copy_chars(name)));
                    },
                }
            },
            Token::Number(v) => {
                generate_number(&mut code, *v);
                proof {
                    assert(words_of(TokenV::Number(*v), p, Seq::empty()) =~= words_of(
                        tv[i3 as int],
                        p,
                        tv,
                    ));
                    assert(code@ =~= emit_upto(tv, i3 + 1));
                }
            },
            Token::Str(cs) => {
                generate_string(&mut code, cs);
                proof {
                    assert(words_of(TokenV::Str(cs@), p, Seq::empty()) =~= words_of(
                        tv[i3 as int],
                        p,
                        tv,
                    ));
                    assert(code@ =~= emit_upto(tv, i3 + 1));
                }
            },
            Token::Print => {
                generate_print(&mut code);
                proof {
                    assert(words_of(TokenV::Print, p, Seq::empty()) =~= words_of(
                        tv[i3 as int],
                        p,
                        tv,
                    ));
                    assert(code@ =~= emit_upto(tv, i3 + 1));
                }
            },
            t => {
                let op = mnemonic_opcode(t);
                code.push(op);
                proof {
                    assert(words_of(tv[i3 as int], p, tv) =~= seq![plain_opcode(tv[i3 as int])]);
                    assert(code@ =~= emit_upto(tv, i3 + 1));
                }
            },
        }
        i3 += 1;
    }
    code.push(NOP);
    proof {
        assert(code@ =~= emit_upto(tv, n as int) + seq![NOP]);
    }
    Ok(code)
}

} // verus!
// The statements below record, once and for all, the global shape of
// assembled programs and the behaviour of the simplest ones.

use crate::instructions::is_opcode;
use crate::vm::{can_tick, init_view, run_steps, VMView};

verus! {

/// Word positions never run backwards.
pub proof fn lemma_prefix_mono(toks: Seq<TokenV>, i: int, j: int)
    requires
        i <= j,
    ensures
        prefix_len(toks, i) <= prefix_len(toks, j),
        0 <= i ==> 0 <= prefix_len(toks, i),
    decreases j - i,
{
    if i < j {
        lemma_prefix_mono(toks, i, j - 1);
        lemma_tok_len_nonneg(toks[j - 1]);
    } else if 0 <= i {
        lemma_prefix_mono_nonneg(toks, i);
    }
}

proof fn lemma_prefix_mono_nonneg(toks: Seq<TokenV>, i: int)
    ensures
        0 <= i ==> 0 <= prefix_len(toks, i),
    decreases i,
{
    if i > 0 {
        lemma_prefix_mono_nonneg(toks, i - 1);
        lemma_tok_len_nonneg(toks[i - 1]);
    }
}

proof fn lemma_first_def_bounds(toks: Seq<TokenV>, n: Seq<char>, i: int)
    requires
        0 <= i <= toks.len(),
    ensures
        i <= first_def_from(toks, n, i) <= toks.len(),
    decreases toks.len() - i,
{
    if i < toks.len() && toks[i] != TokenV::LabelDef(n) {
        lemma_first_def_bounds(toks, n, i + 1);
    }
}

/// Under a successful first pass, every label resolves to a word index
/// within the program.
pub proof fn lemma_label_addr_bounds(toks: Seq<TokenV>, n: Seq<char>)
    requires
        pass1(toks, toks.len() as int) is Ok,
    ensures
        0 <= label_addr(toks, n) <= CODE_LIMIT,
{
    lemma_first_def_bounds(toks, n, 0);
    lemma_prefix_mono(toks, 0, first_def_from(toks, n, 0));
    lemma_prefix_mono(toks, first_def_from(toks, n, 0), toks.len() as int);
    lemma_pass1_ok(toks, toks.len() as int);
}

proof fn lemma_words_of_ok(toks: Seq<TokenV>, i: int)
    requires
        pass1(toks, toks.len() as int) is Ok,
        0 <= i < toks.len(),
        !(toks[i] matches TokenV::Number(v) && v == i32::MIN),
    ensures
        forall|j: int|
            0 <= j < words_of(toks[i], prefix_len(toks, i), toks).len() ==> #[trigger] words_of(
                toks[i],
                prefix_len(toks, i),
                toks,
            )[j] >= 0 || is_opcode(words_of(toks[i], prefix_len(toks, i), toks)[j]),
{
    let pos = prefix_len(toks, i);
    lemma_pass1_ok(toks, toks.len() as int);
    assert(pass1(toks, i + 1) is Ok);
    lemma_pass1_ok(toks, i + 1);
    lemma_prefix_mono(toks, 0, i);
    lemma_tok_len_nonneg(toks[i]);
    let w = words_of(toks[i], pos, toks);
    assert(0 <= pos);
    assert(pos + tok_len(toks[i]) <= CODE_LIMIT);
    assert forall|j: int| 0 <= j < w.len() implies w[j] >= 0 || is_opcode(w[j]) by {
        match toks[i] {
            TokenV::LabelRef(n) => {
                lemma_label_addr_bounds(toks, n);
                assert(w[j] == label_addr(toks, n) as i32);
            },
            TokenV::Number(v) => {
                if v < 0 {
                    if j == 0 {
                        assert(w[j] == abs_word(v));
                    } else {
                        assert(w[j] == NEG);
                    }
                }
            },
            TokenV::Str(cs) => {
                if j > 0 {
                    let c = cs[cs.len() - 1 - (j - 1)];
                    vstd::utf8::char_is_scalar(c);
                    assert((c as u32) < 0x110000);
                    assert(w[j] == (c as u32) as i32);
                    assert(w[j] >= 0);
                }
            },
            TokenV::Print => {
                assert(pos + 8 < 0x8000_0000);
            },
            _ => {},
        }
    }
}

/// Every word of a successfully assembled program is either a non-negative
/// immediate (this includes every back-patched label address) or one of the
/// defined opcodes. The one literal the encoding cannot represent, the most
/// negative word, is excluded.
pub proof fn lemma_assembled_words(toks: Seq<TokenV>)
    requires
        asm_spec(toks) is Ok,
        forall|k: int|
            0 <= k < toks.len() ==> !(#[trigger] toks[k] matches TokenV::Number(v) && v
                == i32::MIN),
    ensures
        forall|j: int|
            0 <= j < asm_spec(toks)->Ok_0.len() ==> #[trigger] asm_spec(toks)->Ok_0[j] >= 0
                || is_opcode(asm_spec(toks)->Ok_0[j]),
{
    lemma_emit_words_ok(toks, toks.len() as int);
    let a = emit_upto(toks, toks.len() as int);
    assert forall|j: int|
        0 <= j < asm_spec(toks)->Ok_0.len() implies #[trigger] asm_spec(toks)->Ok_0[j] >= 0
        || is_opcode(asm_spec(toks)->Ok_0[j]) by {
        if j < a.len() {
            assert(asm_spec(toks)->Ok_0[j] == a[j]);
        } else {
            assert(asm_spec(toks)->Ok_0[j] == NOP);
        }
    }
}

proof fn lemma_emit_words_ok(toks: Seq<TokenV>, i: int)
    requires
        pass1(toks, toks.len() as int) is Ok,
        0 <= i <= toks.len(),
        forall|k: int|
            0 <= k < toks.len() ==> !(#[trigger] toks[k] matches TokenV::Number(v) && v
                == i32::MIN),
    ensures
        forall|j: int|
            0 <= j < emit_upto(toks, i).len() ==> #[trigger] emit_upto(toks, i)[j] >= 0
                || is_opcode(emit_upto(toks, i)[j]),
    decreases i,
{
    if i > 0 {
        lemma_emit_words_ok(toks, i - 1);
        lemma_words_of_ok(toks, i - 1);
        let a = emit_upto(toks, i - 1);
        let w = words_of(toks[i - 1], prefix_len(toks, i - 1), toks);
        assert forall|j: int|
            0 <= j < emit_upto(toks, i).len() implies #[trigger] emit_upto(toks, i)[j] >= 0
            || is_opcode(emit_upto(toks, i)[j]) by {
            if j < a.len() {
                assert(emit_upto(toks, i)[j] == a[j]);
            } else {
                assert(emit_upto(toks, i)[j] == w[j - a.len()]);
            }
        }
    }
}

/// The jump fixed point: wherever a reference `@L` was emitted, the finished
/// program holds exactly the index of the first word emitted for `:L`.
pub proof fn lemma_jump_fixed_point(toks: Seq<TokenV>, i: int)
    requires
        asm_spec(toks) is Ok,
        0 <= i < toks.len(),
        toks[i] matches TokenV::LabelRef(n),
    ensures
        toks[i] matches TokenV::LabelRef(n) ==> asm_spec(toks)->Ok_0[prefix_len(toks, i)]
            == label_addr(toks, n) && label_addr(toks, n) == prefix_len(
            toks,
            first_def_from(toks, n, 0),
        ),
{
    let n = toks[i]->LabelRef_0;
    lemma_pass1_ok(toks, toks.len() as int);
    lemma_label_addr_bounds(toks, n);
    lemma_emit_index(toks, i, toks.len() as int);
    lemma_emit_len(toks, toks.len() as int);
    lemma_prefix_mono(toks, 0, i);
    lemma_prefix_mono(toks, i + 1, toks.len() as int);
    assert(prefix_len(toks, i) < prefix_len(toks, toks.len() as int));
}

proof fn lemma_emit_index(toks: Seq<TokenV>, i: int, j: int)
    requires
        0 <= i < j <= toks.len(),
        tok_len(toks[i]) >= 1,
    ensures
        emit_upto(toks, j)[prefix_len(toks, i)] == words_of(toks[i], prefix_len(toks, i), toks)[0],
    decreases j,
{
    lemma_prefix_mono(toks, 0, i);
    lemma_emit_len(toks, i);
    lemma_emit_len(toks, j - 1);
    if j == i + 1 {
    } else {
        lemma_emit_index(toks, i, j - 1);
        lemma_prefix_mono(toks, i + 1, j - 1);
        lemma_tok_len_nonneg(toks[j - 1]);
    }
}

/// Assembly is a pure function of the token sequence: two assemblies of one
/// and the same program give identical bytecode (and identical errors).
pub proof fn lemma_assembly_idempotent(t1: Seq<TokenV>, t2: Seq<TokenV>)
    requires
        t1 == t2,
    ensures
        asm_spec(t1) == asm_spec(t2),
{
}

/// The layout of a string literal: one `0` sentinel, then the code points in
/// reverse source order, then the final pad. Popping characters one at a
/// time therefore yields them in source order.
pub proof fn lemma_string_layout(cs: Seq<char>)
    requires
        cs.len() + 1 <= CODE_LIMIT,
    ensures
        asm_spec(seq![TokenV::Str(cs)]) == Ok::<Seq<i32>, AsmErrorV>(
            seq![0i32] + Seq::new(cs.len(), |k: int| (cs[cs.len() - 1 - k] as u32) as i32)
                + seq![NOP],
        ),
{
    let toks = seq![TokenV::Str(cs)];
    assert(pass1(toks, 0) == Ok::<int, AsmErrorV>(0));
    assert(pass1(toks, 1) == Ok::<int, AsmErrorV>(1 + cs.len() as int));
    assert(first_undef_from(toks, 1) is None);
    assert(first_undef_from(toks, 0) is None);
    assert(emit_upto(toks, 0) =~= Seq::<i32>::empty());
    assert(prefix_len(toks, 0) == 0);
    assert(emit_upto(toks, 1) =~= words_of(toks[0], 0, toks));
    assert(asm_spec(toks)->Ok_0 =~= seq![0i32] + Seq::new(
        cs.len(),
        |k: int| (cs[cs.len() - 1 - k] as u32) as i32,
    ) + seq![NOP]);
}

/// Round trip for immediates: a non-negative literal assembles to itself
/// (plus the pad), and running that program halts off the end with just that
/// number on the stack and no output.
pub proof fn lemma_immediate_round_trip(n: i32)
    requires
        n >= 0,
    ensures
        asm_spec(seq![TokenV::Number(n)]) == Ok::<Seq<i32>, AsmErrorV>(seq![n, NOP]),
        ({
            let fin = run_steps(init_view(seq![n, NOP]), Seq::empty(), 2);
            &&& fin matches Some(f)
            &&& f.0.stack == seq![n]
            &&& !can_tick(f.0)
            &&& f.2 == Seq::<crate::vm::OutputItem>::empty()
        }),
{
    let toks = seq![TokenV::Number(n)];
    assert(pass1(toks, 0) == Ok::<int, AsmErrorV>(0));
    assert(pass1(toks, 1) == Ok::<int, AsmErrorV>(1));
    assert(first_undef_from(toks, 1) is None);
    assert(first_undef_from(toks, 0) is None);
    assert(emit_upto(toks, 0) =~= Seq::<i32>::empty());
    assert(prefix_len(toks, 0) == 0);
    assert(emit_upto(toks, 1) =~= seq![n]);
    assert(asm_spec(toks)->Ok_0 =~= seq![n, NOP]);
    let s0 = init_view(seq![n, NOP]);
    reveal_with_fuel(run_steps, 3);
    let r1 = run_steps(s0, Seq::empty(), 1);
    assert(r1 matches Some(f1) && f1.0.stack =~= seq![n] && f1.0.ip == 1);
    let r2 = run_steps(s0, Seq::empty(), 2);
    assert(r2 matches Some(f2) && f2.0.stack =~= seq![n] && f2.0.ip == 2 && f2.2
        =~= Seq::<crate::vm::OutputItem>::empty());
}

/// Round trip for negative literals: `-n` assembles to the magnitude
/// followed by `NEG`, and running that program leaves `-n` on the stack.
pub proof fn lemma_negative_round_trip(n: i32)
    requires
        n > 0,
    ensures
        asm_spec(seq![TokenV::Number((-n) as i32)]) == Ok::<Seq<i32>, AsmErrorV>(
            seq![n, NEG, NOP],
        ),
        ({
            let fin = run_steps(init_view(seq![n, NEG, NOP]), Seq::empty(), 3);
            &&& fin matches Some(f)
            &&& f.0.stack == seq![(-n) as i32]
            &&& !can_tick(f.0)
            &&& f.2 == Seq::<crate::vm::OutputItem>::empty()
        }),
{
    let v: i32 = (-n) as i32;
    let toks = seq![TokenV::Number(v)];
    assert(pass1(toks, 0) == Ok::<int, AsmErrorV>(0));
    assert(pass1(toks, 1) == Ok::<int, AsmErrorV>(2));
    assert(first_undef_from(toks, 1) is None);
    assert(first_undef_from(toks, 0) is None);
    assert(emit_upto(toks, 0) =~= Seq::<i32>::empty());
    assert(prefix_len(toks, 0) == 0);
    assert(abs_word(v) == n);
    assert(emit_upto(toks, 1) =~= seq![n, NEG]);
    assert(asm_spec(toks)->Ok_0 =~= seq![n, NEG, NOP]);
    let s0 = init_view(seq![n, NEG, NOP]);
    reveal_with_fuel(run_steps, 4);
    let r1 = run_steps(s0, Seq::empty(), 1);
    assert(r1 matches Some(f1) && f1.0.stack =~= seq![n] && f1.0.ip == 1);
    let r2 = run_steps(s0, Seq::empty(), 2);
    assert(crate::vm::unop_result(NEG, n) == v);
    assert(r2 matches Some(f2) && f2.0.stack =~= seq![v] && f2.0.ip == 2);
    let r3 = run_steps(s0, Seq::empty(), 3);
    assert(r3 matches Some(f3) && f3.0.stack =~= seq![v] && f3.0.ip == 3 && f3.2
        =~= Seq::<crate::vm::OutputItem>::empty());
}

} // verus!

// The behaviour of `PRINT` on a whole string, proved once for every string
// the expansion can address.

use crate::vm::{byte_of, lemma_run_steps_compose, OutputItem};
use crate::vm::MEM_SIZE;

verus! {

/// The code points of a string, reversed, as words.
pub open spec fn str_rev_words(cs: Seq<char>) -> Seq<i32> {
    Seq::new(cs.len(), |k: int| (cs[cs.len() - 1 - k] as u32) as i32)
}

/// The whole program assembled from a string literal followed by `PRINT`.
pub open spec fn print_code(cs: Seq<char>) -> Seq<i32> {
    seq![0i32] + str_rev_words(cs) + seq![
        RF,
        DUP,
        0i32,
        (cs.len() + 9) as i32,
        JE,
        OUT,
        (cs.len() + 2) as i32,
        JMP,
        CRF,
        POP,
    ] + seq![NOP]
}

/// The strings the `PRINT` expansion can handle: the loop's jump targets
/// must be valid addresses, and no character may collide with the `0`
/// sentinel.
pub open spec fn printable(cs: Seq<char>) -> bool {
    &&& cs.len() + 9 < MEM_SIZE
    &&& forall|k: int| 0 <= k < cs.len() ==> (#[trigger] (cs[k] as u32)) != 0
}

/// The machine at the head of the print loop, `j` characters already
/// printed.
pub open spec fn print_loop_state(cs: Seq<char>, j: int) -> VMView {
    VMView {
        program: print_code(cs),
        stack: seq![0i32] + str_rev_words(cs).take(cs.len() - j),
        memory: Seq::new(MEM_SIZE as nat, |i: int| 0i32),
        ip: cs.len() as int + 2,
        hf: false,
        rf: true,
    }
}

/// The bytes printed for the characters from `j` on, in source order.
pub open spec fn print_outputs(cs: Seq<char>, j: int) -> Seq<OutputItem>
    recommends
        0 <= j <= cs.len(),
{
    Seq::new((cs.len() - j) as nat, |k: int| OutputItem::Byte(byte_of((cs[j + k] as u32) as i32)))
}

proof fn lemma_print_code_facts(cs: Seq<char>)
    ensures
        print_code(cs).len() == cs.len() + 12,
        print_code(cs)[0] == 0i32,
        forall|t: int| 0 <= t < cs.len() ==> print_code(cs)[1 + t] == str_rev_words(cs)[t],
        print_code(cs)[cs.len() as int + 1] == RF,
        print_code(cs)[cs.len() as int + 2] == DUP,
        print_code(cs)[cs.len() as int + 3] == 0i32,
        print_code(cs)[cs.len() as int + 4] == (cs.len() + 9) as i32,
        print_code(cs)[cs.len() as int + 5] == JE,
        print_code(cs)[cs.len() as int + 6] == OUT,
        print_code(cs)[cs.len() as int + 7] == (cs.len() + 2) as i32,
        print_code(cs)[cs.len() as int + 8] == JMP,
        print_code(cs)[cs.len() as int + 9] == CRF,
        print_code(cs)[cs.len() as int + 10] == POP,
        print_code(cs)[cs.len() as int + 11] == NOP,
{
}

/// One turn of the print loop: seven steps emit one byte and return to the
/// loop head with one character fewer on the stack.
proof fn lemma_print_iter(cs: Seq<char>, j: int)
    requires
        printable(cs),
        0 <= j < cs.len(),
    ensures
        run_steps(print_loop_state(cs, j), Seq::empty(), 7) == Some(
            (
                print_loop_state(cs, j + 1),
                Seq::<i32>::empty(),
                seq![OutputItem::Byte(byte_of((cs[j] as u32) as i32))],
            ),
        ),
{
    let n = cs.len() as int;
    let code = print_code(cs);
    let rev = str_rev_words(cs);
    let e: Seq<i32> = Seq::empty();
    let s0 = print_loop_state(cs, j);
    let wj = rev[n - 1 - j];
    lemma_print_code_facts(cs);
    vstd::utf8::char_is_scalar(cs[j]);
    assert(wj == (cs[j] as u32) as i32);
    assert(wj >= 0 && wj != 0);
    assert(s0.stack.len() == 1 + (n - j));
    assert(s0.stack.last() == wj);
    reveal_with_fuel(run_steps, 8);
    // DUP
    let st1 = s0.stack.push(wj);
    assert(run_steps(s0, e, 1) matches Some(f) && f.0.stack =~= st1 && f.0.ip == n + 3 && f.0.rf
        && !f.0.hf && f.0.program == code && f.2 =~= Seq::<OutputItem>::empty());
    // immediate 0
    let st2 = st1.push(0i32);
    assert(run_steps(s0, e, 2) matches Some(f) && f.0.stack =~= st2 && f.0.ip == n + 4 && f.0.rf
        && !f.0.hf && f.0.program == code && f.2 =~= Seq::<OutputItem>::empty());
    // immediate `end`
    let st3 = st2.push((n + 9) as i32);
    assert(run_steps(s0, e, 3) matches Some(f) && f.0.stack =~= st3 && f.0.ip == n + 5 && f.0.rf
        && !f.0.hf && f.0.program == code && f.2 =~= Seq::<OutputItem>::empty());
    // JE, not taken: the character is not the sentinel
    assert(st3.take(st3.len() - 3) =~= s0.stack);
    assert(run_steps(s0, e, 4) matches Some(f) && f.0.stack =~= s0.stack && f.0.ip == n + 6
        && f.0.rf && !f.0.hf && f.0.program == code && f.2 =~= Seq::<OutputItem>::empty());
    // OUT in raw mode
    let st5 = s0.stack.take(s0.stack.len() - 1);
    assert(st5 =~= seq![0i32] + rev.take(n - j - 1));
    assert(run_steps(s0, e, 5) matches Some(f) && f.0.stack =~= st5 && f.0.ip == n + 7 && f.0.rf
        && !f.0.hf && f.0.program == code && f.2 =~= seq![OutputItem::Byte(byte_of(wj))]);
    // immediate `prn`
    let st6 = st5.push((n + 2) as i32);
    assert(run_steps(s0, e, 6) matches Some(f) && f.0.stack =~= st6 && f.0.ip == n + 8 && f.0.rf
        && !f.0.hf && f.0.program == code && f.2 =~= seq![OutputItem::Byte(byte_of(wj))]);
    // JMP back to the loop head
    assert(st6.take(st6.len() - 1) =~= st5);
    assert(run_steps(s0, e, 7) matches Some(f) && f.0.stack =~= st5 && f.0.ip == n + 2 && f.0.rf
        && !f.0.hf && f.0.program == code && f.1 == e && f.2 =~= seq![
        OutputItem::Byte(byte_of(wj)),
    ]);
    assert((run_steps(s0, e, 7)->0).0 =~= print_loop_state(cs, j + 1));
    assert((run_steps(s0, e, 7)->0).2 =~= seq![OutputItem::Byte(byte_of((cs[j] as u32) as i32))]);
}

/// The exit of the print loop: with only the sentinel left, seven steps
/// leave raw mode, drop the sentinel, pass the pad and stop with an empty
/// stack.
proof fn lemma_print_exit(cs: Seq<char>)
    requires
        printable(cs),
    ensures
        run_steps(print_loop_state(cs, cs.len() as int), Seq::empty(), 7) == Some(
            (
                VMView {
                    program: print_code(cs),
                    stack: Seq::empty(),
                    memory: Seq::new(MEM_SIZE as nat, |i: int| 0i32),
                    ip: cs.len() as int + 12,
                    hf: false,
                    rf: false,
                },
                Seq::<i32>::empty(),
                Seq::<OutputItem>::empty(),
            ),
        ),
{
    let n = cs.len() as int;
    let code = print_code(cs);
    let e: Seq<i32> = Seq::empty();
    let s0 = print_loop_state(cs, n);
    lemma_print_code_facts(cs);
    assert(s0.stack =~= seq![0i32]);
    reveal_with_fuel(run_steps, 8);
    let st1 = s0.stack.push(0i32);
    assert(run_steps(s0, e, 1) matches Some(f) && f.0.stack =~= st1 && f.0.ip == n + 3 && f.0.rf
        && !f.0.hf && f.0.program == code);
    let st2 = st1.push(0i32);
    assert(run_steps(s0, e, 2) matches Some(f) && f.0.stack =~= st2 && f.0.ip == n + 4 && f.0.rf
        && !f.0.hf && f.0.program == code);
    let st3 = st2.push((n + 9) as i32);
    assert(run_steps(s0, e, 3) matches Some(f) && f.0.stack =~= st3 && f.0.ip == n + 5 && f.0.rf
        && !f.0.hf && f.0.program == code);
    // JE taken: the sentinel equals the duplicated sentinel
    assert(st3.take(st3.len() - 3) =~= s0.stack);
    assert(run_steps(s0, e, 4) matches Some(f) && f.0.stack =~= s0.stack && f.0.ip == n + 9
        && f.0.rf && !f.0.hf && f.0.program == code);
    // CRF
    assert(run_steps(s0, e, 5) matches Some(f) && f.0.stack =~= s0.stack && f.0.ip == n + 10
        && !f.0.rf && !f.0.hf && f.0.program == code);
    // POP drops the sentinel
    assert(s0.stack.take(s0.stack.len() - 1) =~= Seq::<i32>::empty());
    assert(run_steps(s0, e, 6) matches Some(f) && f.0.stack =~= Seq::<i32>::empty() && f.0.ip == n
        + 11 && !f.0.rf && !f.0.hf && f.0.program == code);
    // the final pad
    assert(run_steps(s0, e, 7) matches Some(f) && f.0.stack =~= Seq::<i32>::empty() && f.0.ip == n
        + 12 && !f.0.rf && !f.0.hf && f.0.program == code && f.1 == e && f.2
        =~= Seq::<OutputItem>::empty());
    assert((run_steps(s0, e, 7)->0).0 =~= VMView {
        program: print_code(cs),
        stack: Seq::empty(),
        memory: Seq::new(MEM_SIZE as nat, |i: int| 0i32),
        ip: cs.len() as int + 12,
        hf: false,
        rf: false,
    });
}

/// From the loop head with `j` characters printed, the rest of the run
/// prints the remaining characters in source order and stops cleanly.
proof fn lemma_print_loop(cs: Seq<char>, j: int)
    requires
        printable(cs),
        0 <= j <= cs.len(),
    ensures
        run_steps(print_loop_state(cs, j), Seq::empty(), (7 * (cs.len() - j) + 7) as nat) == Some(
            (
                VMView {
                    program: print_code(cs),
                    stack: Seq::empty(),
                    memory: Seq::new(MEM_SIZE as nat, |i: int| 0i32),
                    ip: cs.len() as int + 12,
                    hf: false,
                    rf: false,
                },
                Seq::<i32>::empty(),
                print_outputs(cs, j),
            ),
        ),
    decreases cs.len() - j,
{
    let n = cs.len() as int;
    let e: Seq<i32> = Seq::empty();
    if j == n {
        lemma_print_exit(cs);
        assert(print_outputs(cs, n) =~= Seq::<OutputItem>::empty());
    } else {
        lemma_print_iter(cs, j);
        lemma_print_loop(cs, j + 1);
        lemma_run_steps_compose(print_loop_state(cs, j), e, 7, (7 * (n - j - 1) + 7) as nat);
        assert(7 + (7 * (n - j - 1) + 7) == 7 * (n - j) + 7);
        assert(seq![OutputItem::Byte(byte_of((cs[j] as u32) as i32))] + print_outputs(cs, j + 1)
            =~= print_outputs(cs, j));
    }
}

/// The opening of the run: the sentinel and the reversed characters are
/// pushed, then raw mode is entered, reaching the loop head.
proof fn lemma_print_push_phase(cs: Seq<char>, j: int)
    requires
        printable(cs),
        0 <= j <= cs.len() + 1,
    ensures
        run_steps(init_view(print_code(cs)), Seq::empty(), j as nat) == Some(
            (
                VMView {
                    program: print_code(cs),
                    stack: print_code(cs).take(j),
                    memory: Seq::new(MEM_SIZE as nat, |i: int| 0i32),
                    ip: j,
                    hf: false,
                    rf: false,
                },
                Seq::<i32>::empty(),
                Seq::<OutputItem>::empty(),
            ),
        ),
    decreases j,
{
    let n = cs.len() as int;
    let code = print_code(cs);
    let e: Seq<i32> = Seq::empty();
    lemma_print_code_facts(cs);
    if j == 0 {
        assert(code.take(0) =~= Seq::<i32>::empty());
        assert(init_view(code) =~= VMView {
            program: code,
            stack: code.take(0),
            memory: Seq::new(MEM_SIZE as nat, |i: int| 0i32),
            ip: 0,
            hf: false,
            rf: false,
        });
    } else {
        lemma_print_push_phase(cs, j - 1);
        let w = code[j - 1];
        if j - 1 == 0 {
            assert(w == 0i32);
        } else {
            assert(w == str_rev_words(cs)[j - 2]);
            vstd::utf8::char_is_scalar(cs[n - 1 - (j - 2)]);
        }
        assert(w >= 0);
        assert(code.take(j - 1).len() == j - 1 <= n + 1);
        reveal_with_fuel(run_steps, 2);
        assert(code.take(j - 1).push(w) =~= code.take(j));
    }
}

/// Printing a string: the program assembled from a string literal and
/// `PRINT` writes the string's characters (as raw bytes) in source order
/// and stops cleanly with an empty stack. Holds for every string short
/// enough for the loop's jump targets to be valid addresses and free of the
/// sentinel character.
pub proof fn lemma_print_emits_source_order(cs: Seq<char>)
    requires
        printable(cs),
    ensures
        asm_spec(seq![TokenV::Str(cs), TokenV::Print]) == Ok::<Seq<i32>, AsmErrorV>(
            print_code(cs),
        ),
        run_steps(init_view(print_code(cs)), Seq::empty(), (8 * cs.len() + 9) as nat) matches Some(
            f,
        ) && f.0.stack == Seq::<i32>::empty() && !can_tick(f.0) && f.2 == print_outputs(cs, 0),
{
    let n = cs.len() as int;
    let toks = seq![TokenV::Str(cs), TokenV::Print];
    let e: Seq<i32> = Seq::empty();
    lemma_print_code_facts(cs);
    // assembly gives exactly `print_code`
    assert(pass1(toks, 0) == Ok::<int, AsmErrorV>(0));
    assert(pass1(toks, 1) == Ok::<int, AsmErrorV>(1 + n));
    assert(pass1(toks, 2) == Ok::<int, AsmErrorV>(11 + n));
    assert(first_undef_from(toks, 2) is None);
    assert(first_undef_from(toks, 1) is None);
    assert(first_undef_from(toks, 0) is None);
    assert(emit_upto(toks, 0) =~= Seq::<i32>::empty());
    assert(prefix_len(toks, 0) == 0);
    assert(prefix_len(toks, 1) == 1 + n);
    assert(emit_upto(toks, 1) =~= seq![0i32] + str_rev_words(cs));
    assert(emit_upto(toks, 2) =~= emit_upto(toks, 1) + words_of(toks[1], 1 + n, toks));
    assert(asm_spec(toks)->Ok_0 =~= print_code(cs));
    // the run: push phase, then the loop
    lemma_print_push_phase(cs, n + 1);
    reveal_with_fuel(run_steps, 2);
    let sp = (run_steps(init_view(print_code(cs)), e, (n + 1) as nat)->0).0;
    assert(sp.stack =~= print_code(cs).take(n + 1));
    // RF enters raw mode and reaches the loop head
    assert(print_code(cs).take(n + 1) =~= seq![0i32] + str_rev_words(cs));
    assert(str_rev_words(cs).take(n - 0) =~= str_rev_words(cs));
    lemma_run_steps_compose(init_view(print_code(cs)), e, (n + 1) as nat, 1);
    assert(run_steps(init_view(print_code(cs)), e, (n + 2) as nat) matches Some(f) && f.0
        =~= print_loop_state(cs, 0) && f.1 == e && f.2 =~= Seq::<OutputItem>::empty());
    lemma_print_loop(cs, 0);
    lemma_run_steps_compose(init_view(print_code(cs)), e, (n + 2) as nat, (7 * n + 7) as nat);
    assert((n + 2) + (7 * n + 7) == 8 * n + 9);
    assert(Seq::<OutputItem>::empty() + print_outputs(cs, 0) =~= print_outputs(cs, 0));
}

} // verus!
