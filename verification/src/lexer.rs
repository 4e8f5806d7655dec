//! The lexer: source text, held as a sequence of characters, to tokens.
//!
//! Whitespace separates tokens; `;` starts a comment running to the end of
//! the line; `:` and `@` introduce label definitions and references; `"`
//! introduces a string literal (no escapes); a digit or `-` introduces a
//! signed decimal number; a letter introduces a mnemonic, matched against the
//! instruction table without regard to ASCII case. Anything else is a fatal
//! source error.
//!
//! The specification function [`lex_rec`] defines the token sequence (or the
//! error) for every source text; [`Lexer::tokenize`] is proved to return
//! exactly that.
use vstd::prelude::*;

verus! {

/// One token, as the code generator consumes it.
#[derive(Debug, Clone, PartialEq, Eq)]
pub enum Token {
    LabelDef(Vec<char>),
    LabelRef(Vec<char>),
    Str(Vec<char>),
    Number(i32),
    Print,
    In,
    Out,
    Add,
    Sub,
    Mul,
    Div,
    Mod,
    Neg,
    Inc,
    Dec,
    And,
    Or,
    Not,
    Xor,
    Shl,
    Shr,
    Pop,
    Dup,
    Swp,
    Ovr,
    Load,
    Stor,
    Jmp,
    Je,
    Jne,
    Jg,
    Jge,
    Jl,
    Jle,
    Nop,
    Halt,
    Rf,
    Crf,
}

/// The mathematical form of a token: names and string contents as character
/// sequences.
#[verifier::ext_equal]
pub enum TokenV {
    LabelDef(Seq<char>),
    LabelRef(Seq<char>),
    Str(Seq<char>),
    Number(i32),
    Print,
    In,
    Out,
    Add,
    Sub,
    Mul,
    Div,
    Mod,
    Neg,
    Inc,
    Dec,
    And,
    Or,
    Not,
    Xor,
    Shl,
    Shr,
    Pop,
    Dup,
    Swp,
    Ovr,
    Load,
    Stor,
    Jmp,
    Je,
    Jne,
    Jg,
    Jge,
    Jl,
    Jle,
    Nop,
    Halt,
    Rf,
    Crf,
}

impl View for Token {
    type V = TokenV;

    open spec fn view(&self) -> TokenV {
        match self {
            Token::LabelDef(n) => TokenV::LabelDef(n@),
            Token::LabelRef(n) => TokenV::LabelRef(n@),
            Token::Str(t) => TokenV::Str(t@),
            Token::Number(v) => TokenV::Number(*v),
            Token::Print => TokenV::Print,
            Token::In => TokenV::In,
            Token::Out => TokenV::Out,
            Token::Add => TokenV::Add,
            Token::Sub => TokenV::Sub,
            Token::Mul => TokenV::Mul,
            Token::Div => TokenV::Div,
            Token::Mod => TokenV::Mod,
            Token::Neg => TokenV::Neg,
            Token::Inc => TokenV::Inc,
            Token::Dec => TokenV::Dec,
            Token::And => TokenV::And,
            Token::Or => TokenV::Or,
            Token::Not => TokenV::Not,
            Token::Xor => TokenV::Xor,
            Token::Shl => TokenV::Shl,
            Token::Shr => TokenV::Shr,
            Token::Pop => TokenV::Pop,
            Token::Dup => TokenV::Dup,
            Token::Swp => TokenV::Swp,
            Token::Ovr => TokenV::Ovr,
            Token::Load => TokenV::Load,
            Token::Stor => TokenV::Stor,
            Token::Jmp => TokenV::Jmp,
            Token::Je => TokenV::Je,
            Token::Jne => TokenV::Jne,
            Token::Jg => TokenV::Jg,
            Token::Jge => TokenV::Jge,
            Token::Jl => TokenV::Jl,
            Token::Jle => TokenV::Jle,
            Token::Nop => TokenV::Nop,
            Token::Halt => TokenV::Halt,
            Token::Rf => TokenV::Rf,
            Token::Crf => TokenV::Crf,
        }
    }
}

/// The fatal source errors of the assembler, each carrying the offending
/// text.
#[derive(Debug, Clone, PartialEq, Eq)]
pub enum AsmError {
    UnexpectedChar(char),
    InvalidInstruction(Vec<char>),
    UnparsableNumber(Vec<char>),
    DuplicateLabel(Vec<char>),
    UndefinedLabel(Vec<char>),
    ProgramTooLarge,
}

/// The mathematical form of an assembler error.
#[verifier::ext_equal]
pub enum AsmErrorV {
    UnexpectedChar(char),
    InvalidInstruction(Seq<char>),
    UnparsableNumber(Seq<char>),
    DuplicateLabel(Seq<char>),
    UndefinedLabel(Seq<char>),
    ProgramTooLarge,
}

impl View for AsmError {
    type V = AsmErrorV;

    open spec fn view(&self) -> AsmErrorV {
        match self {
            AsmError::UnexpectedChar(c) => AsmErrorV::UnexpectedChar(*c),
            AsmError::InvalidInstruction(w) => AsmErrorV::InvalidInstruction(w@),
            AsmError::UnparsableNumber(w) => AsmErrorV::UnparsableNumber(w@),
            AsmError::DuplicateLabel(n) => AsmErrorV::DuplicateLabel(n@),
            AsmError::UndefinedLabel(n) => AsmErrorV::UndefinedLabel(n@),
            AsmError::ProgramTooLarge => AsmErrorV::ProgramTooLarge,
        }
    }
}

/// The views of a token vector.
pub open spec fn toks_view(ts: Seq<Token>) -> Seq<TokenV> {
    ts.map_values(|t: Token| t@)
}

// --- character classes ---

/// Token-separating whitespace: space, tab, carriage return, line feed.
pub open spec fn is_ws(c: char) -> bool {
    c == ' ' || c == '\t' || c == '\r' || c == '\n'
}

pub open spec fn is_digit(c: char) -> bool {
    48 <= c as u32 && c as u32 <= 57
}

pub open spec fn is_alpha(c: char) -> bool {
    (65 <= c as u32 && c as u32 <= 90) || (97 <= c as u32 && c as u32 <= 122)
}

/// A character folded to upper case, as a code point; only ASCII letters
/// fold.
pub open spec fn upc(c: char) -> u32 {
    let u = c as u32;
    if 97 <= u && u <= 122 {
        (u - 32) as u32
    } else {
        u
    }
}

/// Case-insensitive equality of two character sequences (ASCII fold).
pub open spec fn ieq(s: Seq<char>, k: Seq<char>) -> bool {
    s.len() == k.len() && forall|j: int| 0 <= j < s.len() ==> upc(s[j]) == upc(k[j])
}

// --- scanning ---

/// The first position at or after `i` holding whitespace, or the end.
pub open spec fn scan_end(s: Seq<char>, i: int) -> int
    decreases s.len() - i,
{
    if i < 0 || i >= s.len() || is_ws(s[i]) {
        i
    } else {
        scan_end(s, i + 1)
    }
}

/// The first position at or after `i` holding a double quote, or the end.
pub open spec fn scan_quote(s: Seq<char>, i: int) -> int
    decreases s.len() - i,
{
    if i < 0 || i >= s.len() || s[i] == '"' {
        i
    } else {
        scan_quote(s, i + 1)
    }
}

pub proof fn lemma_scan_end_bounds(s: Seq<char>, i: int)
    requires
        0 <= i <= s.len(),
    ensures
        i <= scan_end(s, i) <= s.len(),
        scan_end(s, i) == s.len() || is_ws(s[scan_end(s, i)]),
    decreases s.len() - i,
{
    if i < s.len() && !is_ws(s[i]) {
        lemma_scan_end_bounds(s, i + 1);
    }
}

pub proof fn lemma_scan_quote_bounds(s: Seq<char>, i: int)
    requires
        0 <= i <= s.len(),
    ensures
        i <= scan_quote(s, i) <= s.len(),
        scan_quote(s, i) == s.len() || s[scan_quote(s, i)] == '"',
    decreases s.len() - i,
{
    if i < s.len() && s[i] != '"' {
        lemma_scan_quote_bounds(s, i + 1);
    }
}

// --- number parsing ---

/// The value of a digit string read in decimal.
pub open spec fn digits_val(s: Seq<char>) -> int
    decreases s.len(),
{
    if s.len() == 0 {
        0
    } else {
        digits_val(s.drop_last()) * 10 + (s.last() as u32 - 48)
    }
}

pub open spec fn all_digits(s: Seq<char>) -> bool {
    forall|j: int| 0 <= j < s.len() ==> is_digit(s[j])
}

/// A signed decimal literal: an optional single `+` or `-`, then one or more
/// digits, the value fitting a 32-bit signed word.
pub open spec fn parse_int_spec(s: Seq<char>) -> Option<i32> {
    let neg = s.len() > 0 && s[0] == '-';
    let ds = if s.len() > 0 && (s[0] == '-' || s[0] == '+') {
        s.skip(1)
    } else {
        s
    };
    if ds.len() == 0 || !all_digits(ds) {
        None
    } else {
        let v = if neg {
            -digits_val(ds)
        } else {
            digits_val(ds)
        };
        if i32::MIN <= v <= i32::MAX {
            Some(v as i32)
        } else {
            None
        }
    }
}

pub proof fn lemma_digits_val_nonneg(s: Seq<char>)
    requires
        all_digits(s),
    ensures
        digits_val(s) >= 0,
    decreases s.len(),
{
    if s.len() > 0 {
        assert(all_digits(s.drop_last())) by {
            assert(forall|j: int|
                0 <= j < s.len() - 1 ==> s.drop_last()[j] == s[j] && is_digit(s[j]));
        }
        lemma_digits_val_nonneg(s.drop_last());
    }
}

/// Extending a digit string can only grow its value.
pub proof fn lemma_digits_val_mono(s: Seq<char>, i: int)
    requires
        all_digits(s),
        0 <= i <= s.len(),
    ensures
        digits_val(s.take(i)) <= digits_val(s),
    decreases s.len() - i,
{
    if i < s.len() {
        assert(all_digits(s.take(s.len() - 1))) by {
            assert(forall|j: int|
                0 <= j < s.len() - 1 ==> s.take(s.len() - 1)[j] == s[j] && is_digit(s[j]));
        }
        assert(s.drop_last() =~= s.take(s.len() - 1));
        lemma_digits_val_nonneg(s.drop_last());
        if i == s.len() - 1 {
            assert(digits_val(s.take(i)) <= digits_val(s));
        } else {
            lemma_digits_val_mono(s.take(s.len() - 1), i);
            assert(s.take(s.len() - 1).take(i) =~= s.take(i));
        }
    } else {
        assert(s.take(i) =~= s);
    }
}

// --- mnemonics ---

/// The token for a mnemonic word, matched without regard to ASCII case; None
/// for an unknown word.
pub open spec fn mnemonic_of(w: Seq<char>) -> Option<TokenV> {
    if ieq(w, "PRINT"@) {
        Some(TokenV::Print)
    } else if ieq(w, "IN"@) {
        Some(TokenV::In)
    } else if ieq(w, "OUT"@) {
        Some(TokenV::Out)
    } else if ieq(w, "ADD"@) {
        Some(TokenV::Add)
    } else if ieq(w, "SUB"@) {
        Some(TokenV::Sub)
    } else if ieq(w, "MUL"@) {
        Some(TokenV::Mul)
    } else if ieq(w, "DIV"@) {
        Some(TokenV::Div)
    } else if ieq(w, "MOD"@) {
        Some(TokenV::Mod)
    } else if ieq(w, "NEG"@) {
        Some(TokenV::Neg)
    } else if ieq(w, "INC"@) {
        Some(TokenV::Inc)
    } else if ieq(w, "DEC"@) {
        Some(TokenV::Dec)
    } else if ieq(w, "AND"@) {
        Some(TokenV::And)
    } else if ieq(w, "OR"@) {
        Some(TokenV::Or)
    } else if ieq(w, "NOT"@) {
        Some(TokenV::Not)
    } else if ieq(w, "XOR"@) {
        Some(TokenV::Xor)
    } else if ieq(w, "SHL"@) {
        Some(TokenV::Shl)
    } else if ieq(w, "SHR"@) {
        Some(TokenV::Shr)
    } else if ieq(w, "POP"@) {
        Some(TokenV::Pop)
    } else if ieq(w, "DUP"@) {
        Some(TokenV::Dup)
    } else if ieq(w, "SWP"@) {
        Some(TokenV::Swp)
    } else if ieq(w, "OVR"@) {
        Some(TokenV::Ovr)
    } else if ieq(w, "LOAD"@) {
        Some(TokenV::Load)
    } else if ieq(w, "STOR"@) {
        Some(TokenV::Stor)
    } else if ieq(w, "JMP"@) {
        Some(TokenV::Jmp)
    } else if ieq(w, "JE"@) {
        Some(TokenV::Je)
    } else if ieq(w, "JNE"@) {
        Some(TokenV::Jne)
    } else if ieq(w, "JG"@) {
        Some(TokenV::Jg)
    } else if ieq(w, "JGE"@) {
        Some(TokenV::Jge)
    } else if ieq(w, "JL"@) {
        Some(TokenV::Jl)
    } else if ieq(w, "JLE"@) {
        Some(TokenV::Jle)
    } else if ieq(w, "NOP"@) {
        Some(TokenV::Nop)
    } else if ieq(w, "HALT"@) {
        Some(TokenV::Halt)
    } else if ieq(w, "RF"@) {
        Some(TokenV::Rf)
    } else if ieq(w, "CRF"@) {
        Some(TokenV::Crf)
    } else {
        None
    }
}

// --- the tokenization relation ---

/// Prepend a token to a tokenization result.
pub open spec fn lex_cons(t: TokenV, rest: Result<Seq<TokenV>, AsmErrorV>) -> Result<
    Seq<TokenV>,
    AsmErrorV,
> {
    match rest {
        Ok(ts) => Ok(seq![t] + ts),
        Err(e) => Err(e),
    }
}

/// The tokens of the source from position `i` on, or the first source error.
pub open spec fn lex_rec(s: Seq<char>, i: int) -> Result<Seq<TokenV>, AsmErrorV>
    decreases s.len() - i, 1int,
{
    if i < 0 || i >= s.len() {
        Ok(Seq::empty())
    } else if is_ws(s[i]) {
        lex_rec(s, i + 1)
    } else if s[i] == ';' {
        lex_comment(s, i + 1)
    } else if is_alpha(s[i]) {
        let e = scan_end(s, i);
        if i < e && e <= s.len() {
            match mnemonic_of(s.subrange(i, e)) {
                Some(t) => lex_cons(t, lex_rec(s, e)),
                None => Err(AsmErrorV::InvalidInstruction(s.subrange(i, e))),
            }
        } else {
            Ok(Seq::empty())
        }
    } else if is_digit(s[i]) || s[i] == '-' {
        let e = scan_end(s, i);
        if i < e && e <= s.len() {
            match parse_int_spec(s.subrange(i, e)) {
                Some(v) => lex_cons(TokenV::Number(v), lex_rec(s, e)),
                None => Err(AsmErrorV::UnparsableNumber(s.subrange(i, e))),
            }
        } else {
            Ok(Seq::empty())
        }
    } else if s[i] == ':' {
        let e = scan_end(s, i + 1);
        if i < e && e <= s.len() {
            lex_cons(TokenV::LabelDef(s.subrange(i + 1, e)), lex_rec(s, e))
        } else {
            Ok(Seq::empty())
        }
    } else if s[i] == '@' {
        let e = scan_end(s, i + 1);
        if i < e && e <= s.len() {
            lex_cons(TokenV::LabelRef(s.subrange(i + 1, e)), lex_rec(s, e))
        } else {
            Ok(Seq::empty())
        }
    } else if s[i] == '"' {
        let e = scan_quote(s, i + 1);
        if e >= s.len() {
            lex_cons(TokenV::Str(s.subrange(i + 1, s.len() as int)), lex_rec(s, s.len() as int))
        } else if i < e + 1 && e < s.len() {
            lex_cons(TokenV::Str(s.subrange(i + 1, e)), lex_rec(s, e + 1))
        } else {
            Ok(Seq::empty())
        }
    } else {
        Err(AsmErrorV::UnexpectedChar(s[i]))
    }
}

/// Inside a comment: everything up to and including the next line feed is
/// skipped.
pub open spec fn lex_comment(s: Seq<char>, i: int) -> Result<Seq<TokenV>, AsmErrorV>
    decreases s.len() - i, 0int,
{
    if i < 0 || i >= s.len() {
        Ok(Seq::empty())
    } else if s[i] == '\n' {
        lex_rec(s, i + 1)
    } else {
        lex_comment(s, i + 1)
    }
}

// --- executable character helpers ---

fn is_ws_x(c: char) -> (r: bool)
    ensures
        r == is_ws(c),
{
    c == ' ' || c == '\t' || c == '\r' || c == '\n'
}

fn is_digit_x(c: char) -> (r: bool)
    ensures
        r == is_digit(c),
{
    let u = c as u32;
    48 <= u && u <= 57
}

fn is_alpha_x(c: char) -> (r: bool)
    ensures
        r == is_alpha(c),
{
    let u = c as u32;
    (65 <= u && u <= 90) || (97 <= u && u <= 122)
}

fn upc_x(c: char) -> (r: u32)
    ensures
        r == upc(c),
{
    let u = c as u32;
    if 97 <= u && u <= 122 {
        u - 32
    } else {
        u
    }
}

/// Case-insensitive comparison of a scanned word against a mnemonic.
fn kw_is(w: &Vec<char>, k: &str) -> (r: bool)
    ensures
        r == ieq(w@, k@),
{
    let klen = k.unicode_len();
    if w.len() != klen {
        return false;
    }
    let mut j: usize = 0;
    while j < klen
        invariant
            klen == k@.len(),
            w@.len() == klen,
            j <= klen,
            forall|t: int| 0 <= t < j ==> upc(w@[t]) == upc(k@[t]),
        decreases klen - j,
    {
        if upc_x(w[j]) != upc_x(k.get_char(j)) {
            return false;
        }
        j += 1;
    }
    true
}

/// The token for a scanned word, or None if it is no mnemonic.
fn mnemonic_token(w: &Vec<char>) -> (r: Option<Token>)
    ensures
        match r {
            Some(t) => mnemonic_of(w@) == Some(t@),
            None => mnemonic_of(w@) is None,
        },
{
    if kw_is(w, "PRINT") {
        Some(Token::Print)
    } else if kw_is(w, "IN") {
        Some(Token::In)
    } else if kw_is(w, "OUT") {
        Some(Token::Out)
    } else if kw_is(w, "ADD") {
        Some(Token::Add)
    } else if kw_is(w, "SUB") {
        Some(Token::Sub)
    } else if kw_is(w, "MUL") {
        Some(Token::Mul)
    } else if kw_is(w, "DIV") {
        Some(Token::Div)
    } else if kw_is(w, "MOD") {
        Some(Token::Mod)
    } else if kw_is(w, "NEG") {
        Some(Token::Neg)
    } else if kw_is(w, "INC") {
        Some(Token::Inc)
    } else if kw_is(w, "DEC") {
        Some(Token::Dec)
    } else if kw_is(w, "AND") {
        Some(Token::And)
    } else if kw_is(w, "OR") {
        Some(Token::Or)
    } else if kw_is(w, "NOT") {
        Some(Token::Not)
    } else if kw_is(w, "XOR") {
        Some(Token::Xor)
    } else if kw_is(w, "SHL") {
        Some(Token::Shl)
    } else if kw_is(w, "SHR") {
        Some(Token::Shr)
    } else if kw_is(w, "POP") {
        Some(Token::Pop)
    } else if kw_is(w, "DUP") {
        Some(Token::Dup)
    } else if kw_is(w, "SWP") {
        Some(Token::Swp)
    } else if kw_is(w, "OVR") {
        Some(Token::Ovr)
    } else if kw_is(w, "LOAD") {
        Some(Token::Load)
    } else if kw_is(w, "STOR") {
        Some(Token::Stor)
    } else if kw_is(w, "JMP") {
        Some(Token::Jmp)
    } else if kw_is(w, "JE") {
        Some(Token::Je)
    } else if kw_is(w, "JNE") {
        Some(Token::Jne)
    } else if kw_is(w, "JG") {
        Some(Token::Jg)
    } else if kw_is(w, "JGE") {
        Some(Token::Jge)
    } else if kw_is(w, "JL") {
        Some(Token::Jl)
    } else if kw_is(w, "JLE") {
        Some(Token::Jle)
    } else if kw_is(w, "NOP") {
        Some(Token::Nop)
    } else if kw_is(w, "HALT") {
        Some(Token::Halt)
    } else if kw_is(w, "RF") {
        Some(Token::Rf)
    } else if kw_is(w, "CRF") {
        Some(Token::Crf)
    } else {
        None
    }
}

/// A signed decimal literal, exactly as [`parse_int_spec`] reads it.
fn parse_number(w: &Vec<char>) -> (r: Option<i32>)
    ensures
        r == parse_int_spec(w@),
{
    let mut j: usize = 0;
    let mut neg = false;
    if w.len() > 0 && (w[0] == '-' || w[0] == '+') {
        neg = w[0] == '-';
        j = 1;
    }
    let start = j;
    let ghost ds = w@.skip(start as int);
    proof {
        if start == 0 {
            assert(w@.skip(0) =~= w@);
        }
    }
    if j >= w.len() {
        return None;
    }
    let mut mag: u64 = 0;
    #[verifier::loop_isolation(false)]
    while j < w.len()
        invariant
            start <= j <= w@.len(),
            start == if w@.len() > 0 && (w@[0] == '-' || w@[0] == '+') {
                1int
            } else {
                0int
            },
            ds == w@.skip(start as int),
            all_digits(ds.take(j - start)),
            mag == digits_val(ds.take(j - start)),
            mag <= 0x8000_0000u64,
        decreases w@.len() - j,
    {
        let c = w[j];
        let u = c as u32;
        if u < 48 || u > 57 {
            assert(!is_digit(ds[j - start]));
            return None;
        }
        mag = mag * 10 + (u - 48) as u64;
        proof {
            assert(ds.take(j + 1 - start).drop_last() =~= ds.take(j - start));
            assert(all_digits(ds.take(j + 1 - start)));
        }
        if mag > 0x8000_0000u64 {
            proof {
                if all_digits(ds) {
                    assert(mag == digits_val(ds.take(j + 1 - start)));
                    lemma_digits_val_mono(ds, j + 1 - start);
                    assert(digits_val(ds) > 0x8000_0000);
                }
                assert(parse_int_spec(w@) is None);
            }
            return None;
        }
        j += 1;
    }
    proof {
        assert(ds.take(w@.len() - start) =~= ds);
    }
    if neg {
        if mag == 0x8000_0000u64 {
            Some(i32::MIN)
        } else {
            Some(-(mag as i32))
        }
    } else {
        if mag > 0x7FFF_FFFFu64 {
            None
        } else {
            Some(mag as i32)
        }
    }
}

// --- the lexer ---

/// A cursor over the source text.
pub struct Lexer {
    source: Vec<char>,
    current: usize,
}

impl Lexer {
    /// The source being scanned.
    pub closed spec fn src(&self) -> Seq<char> {
        self.source@
    }

    /// The current scan position.
    pub closed spec fn pos(&self) -> int {
        self.current as int
    }

    pub open spec fn wf(&self) -> bool {
        self.pos() <= self.src().len()
    }

    pub fn new(source: Vec<char>) -> (lx: Lexer)
        ensures
            lx.wf(),
            lx.src() == source@,
            lx.pos() == 0,
    {
        Lexer { source, current: 0 }
    }

    /// The character under the cursor, if any.
    fn peek(&self) -> (r: Option<char>)
        requires
            self.wf(),
        ensures
            r == if self.pos() < self.src().len() {
                Some(self.src()[self.pos()])
            } else {
                None::<char>
            },
    {
        if self.current < self.source.len() {
            Some(self.source[self.current])
        } else {
            None
        }
    }

    /// Advance over one character.
    fn consume(&mut self) -> (r: Option<char>)
        requires
            old(self).wf(),
        ensures
            final(self).wf(),
            final(self).src() == old(self).src(),
            if old(self).pos() < old(self).src().len() {
                r == Some(old(self).src()[old(self).pos()]) && final(self).pos() == old(self).pos()
                    + 1
            } else {
                r is None && final(self).pos() == old(self).pos()
            },
    {
        if self.current < self.source.len() {
            let c = self.source[self.current];
            self.current += 1;
            Some(c)
        } else {
            None
        }
    }

    /// Advance to the next whitespace character (or the end).
    fn consume_until_whitespace(&mut self)
        requires
            old(self).wf(),
        ensures
            final(self).wf(),
            final(self).src() == old(self).src(),
            final(self).pos() == scan_end(old(self).src(), old(self).pos()),
    {
        while self.current < self.source.len() && !is_ws_x(self.source[self.current])
            invariant
                self.wf(),
                self.src() == old(self).src(),
                self.pos() >= old(self).pos(),
                scan_end(self.src(), old(self).pos()) == scan_end(self.src(), self.pos()),
            decreases self.src().len() - self.pos(),
        {
            self.current += 1;
        }
    }

    /// Advance to the next line feed (or the end), without consuming it.
    fn consume_until_newline(&mut self)
        requires
            old(self).wf(),
        ensures
            final(self).wf(),
            final(self).src() == old(self).src(),
            final(self).pos() >= old(self).pos(),
            lex_comment(old(self).src(), old(self).pos()) == lex_comment(
                final(self).src(),
                final(self).pos(),
            ),
            final(self).pos() == final(self).src().len() || final(self).src()[final(self).pos()]
                == '\n',
    {
        while self.current < self.source.len() && self.source[self.current] != '\n'
            invariant
                self.wf(),
                self.src() == old(self).src(),
                self.pos() >= old(self).pos(),
                lex_comment(self.src(), old(self).pos()) == lex_comment(self.src(), self.pos()),
            decreases self.src().len() - self.pos(),
        {
            self.current += 1;
        }
    }

    /// Copy the characters of `[from, to)` out of the source.
    fn slice(&self, from: usize, to: usize) -> (w: Vec<char>)
        requires
            self.wf(),
            from <= to <= self.src().len(),
        ensures
            w@ == self.src().subrange(from as int, to as int),
    {
        let mut w: Vec<char> = Vec::new();
        let mut k = from;
        while k < to
            invariant
                from <= k <= to <= self.src().len(),
                self.wf(),
                w@ == self.src().subrange(from as int, k as int),
            decreases to - k,
        {
            w.push(self.source[k]);
            proof {
                assert(w@ =~= self.src().subrange(from as int, k + 1));
            }
            k += 1;
        }
        w
    }

    fn tokenize_label_def(&mut self) -> (r: Result<Option<Token>, AsmError>)
        requires
            old(self).wf(),
            old(self).pos() < old(self).src().len(),
            old(self).src()[old(self).pos()] == ':',
        ensures
            final(self).wf(),
            final(self).src() == old(self).src(),
            final(self).pos() > old(self).pos(),
            r matches Ok(Some(t)) && lex_rec(old(self).src(), old(self).pos()) == lex_cons(
                t@,
                lex_rec(final(self).src(), final(self).pos()),
            ),
    {
        let ghost s = self.src();
        let ghost i = self.pos();
        self.consume();
        let start = self.current;
        self.consume_until_whitespace();
        proof {
            lemma_scan_end_bounds(s, i + 1);
        }
        let name = self.slice(start, self.current);
        Ok(Some(Token::LabelDef(name)))
    }

    fn tokenize_label_ref(&mut self) -> (r: Result<Option<Token>, AsmError>)
        requires
            old(self).wf(),
            old(self).pos() < old(self).src().len(),
            old(self).src()[old(self).pos()] == '@',
        ensures
            final(self).wf(),
            final(self).src() == old(self).src(),
            final(self).pos() > old(self).pos(),
            r matches Ok(Some(t)) && lex_rec(old(self).src(), old(self).pos()) == lex_cons(
                t@,
                lex_rec(final(self).src(), final(self).pos()),
            ),
    {
        let ghost s = self.src();
        let ghost i = self.pos();
        self.consume();
        let start = self.current;
        self.consume_until_whitespace();
        proof {
            lemma_scan_end_bounds(s, i + 1);
        }
        let name = self.slice(start, self.current);
        Ok(Some(Token::LabelRef(name)))
    }

    fn tokenize_string(&mut self) -> (r: Result<Option<Token>, AsmError>)
        requires
            old(self).wf(),
            old(self).pos() < old(self).src().len(),
            old(self).src()[old(self).pos()] == '"',
        ensures
            final(self).wf(),
            final(self).src() == old(self).src(),
            final(self).pos() > old(self).pos(),
            r matches Ok(Some(t)) && lex_rec(old(self).src(), old(self).pos()) == lex_cons(
                t@,
                lex_rec(final(self).src(), final(self).pos()),
            ),
    {
        let ghost s = self.src();
        let ghost i = self.pos();
        self.consume();
        let start = self.current;
        while self.current < self.source.len() && self.source[self.current] != '"'
            invariant
                self.wf(),
                self.src() == s,
                start <= self.pos() <= self.src().len(),
                start == i + 1,
                scan_quote(s, start as int) == scan_quote(s, self.pos()),
            decreases self.src().len() - self.pos(),
        {
            self.current += 1;
        }
        let text = self.slice(start, self.current);
        proof {
            lemma_scan_quote_bounds(s, i + 1);
        }
        if self.current < self.source.len() {
            self.consume();
        }
        Ok(Some(Token::Str(text)))
    }

    fn tokenize_number(&mut self) -> (r: Result<Option<Token>, AsmError>)
        requires
            old(self).wf(),
            old(self).pos() < old(self).src().len(),
            is_digit(old(self).src()[old(self).pos()]) || old(self).src()[old(self).pos()] == '-',
        ensures
            final(self).wf(),
            final(self).src() == old(self).src(),
            match r {
                Ok(Some(t)) => lex_rec(old(self).src(), old(self).pos()) == lex_cons(
                    t@,
                    lex_rec(final(self).src(), final(self).pos()),
                ) && final(self).pos() > old(self).pos(),
                Ok(None) => false,
                Err(e) => lex_rec(old(self).src(), old(self).pos()) == Err::<
                    Seq<TokenV>,
                    AsmErrorV,
                >(e@),
            },
    {
        let ghost s = self.src();
        let ghost i = self.pos();
        let start = self.current;
        self.consume_until_whitespace();
        proof {
            lemma_scan_end_bounds(s, i);
            assert(scan_end(s, i) > i);
        }
        let word = self.slice(start, self.current);
        proof {
            lemma_scan_end_bounds(s, i + 1);
        }
        match parse_number(&word) {
            Some(v) => Ok(Some(Token::Number(v))),
            None => Err(AsmError::UnparsableNumber(word)),
        }
    }

    fn tokenize_instruction(&mut self) -> (r: Result<Option<Token>, AsmError>)
        requires
            old(self).wf(),
            old(self).pos() < old(self).src().len(),
            is_alpha(old(self).src()[old(self).pos()]),
        ensures
            final(self).wf(),
            final(self).src() == old(self).src(),
            match r {
                Ok(Some(t)) => lex_rec(old(self).src(), old(self).pos()) == lex_cons(
                    t@,
                    lex_rec(final(self).src(), final(self).pos()),
                ) && final(self).pos() > old(self).pos(),
                Ok(None) => false,
                Err(e) => lex_rec(old(self).src(), old(self).pos()) == Err::<
                    Seq<TokenV>,
                    AsmErrorV,
                >(e@),
            },
    {
        let ghost s = self.src();
        let ghost i = self.pos();
        let start = self.current;
        self.consume_until_whitespace();
        proof {
            lemma_scan_end_bounds(s, i);
            assert(scan_end(s, i) > i);
        }
        let word = self.slice(start, self.current);
        proof {
            lemma_scan_end_bounds(s, i + 1);
        }
        match mnemonic_token(&word) {
            Some(t) => Ok(Some(t)),
            None => Err(AsmError::InvalidInstruction(word)),
        }
    }

    /// Scan one token, skipping whitespace and comments; `Ok(None)` at the
    /// end of the source.
    fn next_token(&mut self) -> (r: Result<Option<Token>, AsmError>)
        requires
            old(self).wf(),
        ensures
            final(self).wf(),
            final(self).src() == old(self).src(),
            match r {
                Ok(Some(t)) => lex_rec(old(self).src(), old(self).pos()) == lex_cons(
                    t@,
                    lex_rec(final(self).src(), final(self).pos()),
                ) && final(self).pos() > old(self).pos(),
                Ok(None) => lex_rec(old(self).src(), old(self).pos()) == Ok::<
                    Seq<TokenV>,
                    AsmErrorV,
                >(Seq::<TokenV>::empty()),
                Err(e) => lex_rec(old(self).src(), old(self).pos()) == Err::<
                    Seq<TokenV>,
                    AsmErrorV,
                >(e@),
            },
    {
        loop
            invariant
                self.wf(),
                self.src() == old(self).src(),
                self.pos() >= old(self).pos(),
                lex_rec(self.src(), old(self).pos()) == lex_rec(self.src(), self.pos()),
            decreases self.src().len() - self.pos(),
        {
            match self.peek() {
                None => {
                    return Ok(None);
                },
                Some(c) => {
                    if is_ws_x(c) {
                        self.consume();
                    } else if c == ';' {
                        self.consume();
                        self.consume_until_newline();
                        if self.current < self.source.len() {
                            self.consume();
                        } else {
                            return Ok(None);
                        }
                    } else if is_alpha_x(c) {
                        return self.tokenize_instruction();
                    } else if is_digit_x(c) || c == '-' {
                        return self.tokenize_number();
                    } else if c == ':' {
                        return self.tokenize_label_def();
                    } else if c == '@' {
                        return self.tokenize_label_ref();
                    } else if c == '"' {
                        return self.tokenize_string();
                    } else {
                        return Err(AsmError::UnexpectedChar(c));
                    }
                },
            }
        }
    }

    /// Scan the whole source: exactly the tokens of [`lex_rec`], or its first
    /// error.
    pub fn tokenize(self) -> (r: Result<Vec<Token>, AsmError>)
        requires
            self.wf(),
        ensures
            r is Ok ==> lex_rec(self.src(), self.pos()) == Ok::<Seq<TokenV>, AsmErrorV>(
                toks_view(r->Ok_0@),
            ),
            r is Err ==> lex_rec(self.src(), self.pos()) == Err::<Seq<TokenV>, AsmErrorV>(
                r->Err_0@,
            ),
    {
        let ghost s0 = self.src();
        let ghost p0 = self.pos();
        let mut lx = self;
        let mut toks: Vec<Token> = Vec::new();
        proof {
            assert(toks_view(toks@) =~= Seq::<TokenV>::empty());
            match lex_rec(s0, p0) {
                Ok(rest) => {
                    assert(toks_view(toks@) + rest =~= rest);
                },
                Err(_) => {},
            }
        }
        #[verifier::loop_isolation(false)]
        loop
            invariant
                lx.wf(),
                lx.src() == s0,
                lex_rec(s0, p0) == match lex_rec(s0, lx.pos()) {
                    Ok(rest) => Ok(toks_view(toks@) + rest),
                    Err(e) => Err(e),
                },
            decreases lx.src().len() - lx.pos(),
        {
            let ghost pre = lx.pos();
            let ghost done0 = toks_view(toks@);
            match lx.next_token() {
                Ok(Some(t)) => {
                    toks.push(t);
                    proof {
                        assert(toks_view(toks@) =~= done0.push(t@));
                        match lex_rec(s0, lx.pos()) {
                            Ok(rest) => {
                                assert(done0 + (seq![t@] + rest) =~= done0.push(t@) + rest);
                            },
                            Err(_) => {},
                        }
                    }
                },
                Ok(None) => {
                    proof {
                        assert(lex_rec(s0, pre) == Ok::<Seq<TokenV>, AsmErrorV>(
                            Seq::<TokenV>::empty(),
                        ));
                        assert(toks_view(toks@) + Seq::<TokenV>::empty() =~= toks_view(toks@));
                        assert(lex_rec(s0, p0) == Ok::<Seq<TokenV>, AsmErrorV>(toks_view(toks@)));
                    }
                    return Ok(toks);
                },
                Err(e) => {
                    proof {
                        assert(lex_rec(s0, pre) == Err::<Seq<TokenV>, AsmErrorV>(e@));
                        assert(lex_rec(s0, p0) == Err::<Seq<TokenV>, AsmErrorV>(e@));
                    }
                    return Err(e);
                },
            }
        }
    }
}

} // verus!
