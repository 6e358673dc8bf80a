//! The assembler front end: one source line becomes one token.
//!
//! A line is split into whitespace-separated fields; the first field is the
//! mnemonic, the rest are operands.  A label operand is carried as a raw
//! name string and resolved later by the linker.  Blank lines and `//`
//! comments yield [`Token::Ignore`] and contribute no bytes.  The grammar is
//! the spec function [`parse_line_spec`]; [`Token::parse`] is proved to
//! follow it exactly.

use vstd::prelude::*;

verus! {

use vstd::string::StrSliceExecFns;

/// The typed form of one source line.
#[derive(Debug, PartialEq)]
pub enum Token {
    Nop,
    /// `exit <code>`: stop with an 8-bit exit code.
    Exit(u8),
    /// `u8 <name> <value>`: declare a named 8-bit data cell.
    U8Data(String, u8),
    Add,
    Subtract,
    Multiply,
    LoadA(String),
    LoadB(String),
    LoadC(String),
    StoreA(String),
    StoreB(String),
    StoreC(String),
    Jump(String),
    Jeq(String),
    Jneq(String),
    Jgt(String),
    Jlt(String),
    /// A blank line or a `//` comment: no instruction, no bytes.
    Ignore,
}

/// The abstract form of a token: label names as character sequences.
pub ghost enum TokenView {
    Nop,
    Exit(u8),
    U8Data(Seq<char>, u8),
    Add,
    Subtract,
    Multiply,
    LoadA(Seq<char>),
    LoadB(Seq<char>),
    LoadC(Seq<char>),
    StoreA(Seq<char>),
    StoreB(Seq<char>),
    StoreC(Seq<char>),
    Jump(Seq<char>),
    Jeq(Seq<char>),
    Jneq(Seq<char>),
    Jgt(Seq<char>),
    Jlt(Seq<char>),
    Ignore,
}

impl View for Token {
    type V = TokenView;

    open spec fn view(&self) -> TokenView {
        match self {
            Token::Nop => TokenView::Nop,
            Token::Exit(code) => TokenView::Exit(*code),
            Token::U8Data(name, value) => TokenView::U8Data(name@, *value),
            Token::Add => TokenView::Add,
            Token::Subtract => TokenView::Subtract,
            Token::Multiply => TokenView::Multiply,
            Token::LoadA(label) => TokenView::LoadA(label@),
            Token::LoadB(label) => TokenView::LoadB(label@),
            Token::LoadC(label) => TokenView::LoadC(label@),
            Token::StoreA(label) => TokenView::StoreA(label@),
            Token::StoreB(label) => TokenView::StoreB(label@),
            Token::StoreC(label) => TokenView::StoreC(label@),
            Token::Jump(label) => TokenView::Jump(label@),
            Token::Jeq(label) => TokenView::Jeq(label@),
            Token::Jneq(label) => TokenView::Jneq(label@),
            Token::Jgt(label) => TokenView::Jgt(label@),
            Token::Jlt(label) => TokenView::Jlt(label@),
            Token::Ignore => TokenView::Ignore,
        }
    }
}

/// The views of a sequence of tokens.
pub open spec fn views_of(tokens: Seq<Token>) -> Seq<TokenView> {
    tokens.map_values(|t: Token| t@)
}

/// Why a line failed to tokenize.
#[derive(Clone, Copy, Debug, PartialEq, Eq, Structural)]
pub enum SyntaxErrorKind {
    /// The first field is no known mnemonic.
    UnknownMnemonic,
    /// The mnemonic needs more fields than the line has.
    MissingOperand,
    /// An operand did not parse as an 8-bit unsigned integer.
    InvalidNumber,
    /// A `u8` declaration stood in a code section.
    MisplacedData,
    /// An instruction stood in the data section.
    MisplacedInstruction,
    /// An instruction or declaration stood before the first section header.
    OutsideSection,
}

/// A tokenizer failure: the reason, and the field it trips over.
#[derive(Debug, PartialEq)]
pub struct SyntaxError {
    pub kind: SyntaxErrorKind,
    pub lexeme: String,
}

/// The abstract form of a tokenizer failure.
pub ghost struct SyntaxErrorView {
    pub kind: SyntaxErrorKind,
    pub lexeme: Seq<char>,
}

impl View for SyntaxError {
    type V = SyntaxErrorView;

    open spec fn view(&self) -> SyntaxErrorView {
        SyntaxErrorView { kind: self.kind, lexeme: self.lexeme@ }
    }
}

/// Field separators: the blank characters a line is split on.
pub open spec fn is_space(c: char) -> bool {
    c == ' ' || c == '\t' || c == '\r'
}

/// The length of the run of non-space characters at the front of `s`.
pub open spec fn word_len(s: Seq<char>) -> nat
    decreases s.len(),
{
    if s.len() == 0 || is_space(s[0]) {
        0
    } else {
        1 + word_len(s.subrange(1, s.len() as int))
    }
}

/// The whitespace-separated fields of a line, in order.
pub open spec fn fields_of(s: Seq<char>) -> Seq<Seq<char>>
    decreases s.len(),
{
    if s.len() == 0 {
        Seq::empty()
    } else if is_space(s[0]) {
        fields_of(s.subrange(1, s.len() as int))
    } else {
        let wl = 1 + word_len(s.subrange(1, s.len() as int));
        proof {
            lemma_word_len_le(s.subrange(1, s.len() as int));
        }
        seq![s.subrange(0, wl as int)] + fields_of(s.subrange(wl as int, s.len() as int))
    }
}

/// A word never runs past the end of its line.
pub proof fn lemma_word_len_le(s: Seq<char>)
    ensures
        word_len(s) <= s.len(),
    decreases s.len(),
{
    if s.len() != 0 && !is_space(s[0]) {
        lemma_word_len_le(s.subrange(1, s.len() as int));
    }
}

/// A decimal digit.
pub open spec fn is_dec_digit(c: char) -> bool {
    48 <= c as u32 <= 57
}

/// The numeric value of a decimal digit.
pub open spec fn digit_val(c: char) -> int {
    c as u32 - 48
}

/// The value of a string of decimal digits.
pub open spec fn dec_val(s: Seq<char>) -> int
    decreases s.len(),
{
    if s.len() == 0 {
        0
    } else {
        dec_val(s.drop_last()) * 10 + digit_val(s.last())
    }
}

/// A field that parses as an 8-bit unsigned integer: one or more decimal
/// digits whose value is at most 255.
pub open spec fn valid_u8_literal(s: Seq<char>) -> bool {
    &&& s.len() > 0
    &&& forall|i: int| 0 <= i < s.len() ==> is_dec_digit(#[trigger] s[i])
    &&& dec_val(s) <= 255
}

/// A digit string's value is never negative.
pub proof fn lemma_dec_val_nonneg(s: Seq<char>)
    requires
        forall|i: int| 0 <= i < s.len() ==> is_dec_digit(#[trigger] s[i]),
    ensures
        dec_val(s) >= 0,
    decreases s.len(),
{
    if s.len() > 0 {
        lemma_dec_val_nonneg(s.drop_last());
    }
}

/// Extending a digit string never shrinks its value: the value of a prefix
/// is a lower bound for the value of the whole.
pub proof fn lemma_dec_val_prefix(s: Seq<char>, k: int)
    requires
        0 <= k <= s.len(),
        forall|i: int| 0 <= i < s.len() ==> is_dec_digit(#[trigger] s[i]),
    ensures
        dec_val(s) >= dec_val(s.subrange(0, k)),
    decreases s.len() - k,
{
    if k == s.len() {
        assert(s.subrange(0, k) =~= s);
    } else {
        lemma_dec_val_prefix(s, k + 1);
        let p = s.subrange(0, k + 1);
        assert(p.drop_last() =~= s.subrange(0, k));
        lemma_dec_val_nonneg(s.subrange(0, k));
    }
}

/// The grammar of one source line.
///
/// The line's whitespace-separated fields decide the token: no fields or a
/// leading `//` is [`TokenView::Ignore`]; a known mnemonic takes its
/// operands from the following fields; anything else is a syntax error.
/// Extra fields beyond what a mnemonic needs are ignored.
pub open spec fn parse_line_spec(line: Seq<char>) -> Result<TokenView, SyntaxErrorView> {
    let f = fields_of(line);
    if f.len() == 0 {
        Ok(TokenView::Ignore)
    } else if f[0].len() >= 2 && f[0][0] == '/' && f[0][1] == '/' {
        Ok(TokenView::Ignore)
    } else if f[0] == "nop"@ {
        Ok(TokenView::Nop)
    } else if f[0] == "exit"@ {
        if f.len() < 2 {
            Err(SyntaxErrorView { kind: SyntaxErrorKind::MissingOperand, lexeme: f[0] })
        } else if !valid_u8_literal(f[1]) {
            Err(SyntaxErrorView { kind: SyntaxErrorKind::InvalidNumber, lexeme: f[1] })
        } else {
            Ok(TokenView::Exit(dec_val(f[1]) as u8))
        }
    } else if f[0] == "add"@ {
        Ok(TokenView::Add)
    } else if f[0] == "subtract"@ {
        Ok(TokenView::Subtract)
    } else if f[0] == "multiply"@ {
        Ok(TokenView::Multiply)
    } else if f[0] == "loada"@ {
        if f.len() < 2 {
            Err(SyntaxErrorView { kind: SyntaxErrorKind::MissingOperand, lexeme: f[0] })
        } else {
            Ok(TokenView::LoadA(f[1]))
        }
    } else if f[0] == "loadb"@ {
        if f.len() < 2 {
            Err(SyntaxErrorView { kind: SyntaxErrorKind::MissingOperand, lexeme: f[0] })
        } else {
            Ok(TokenView::LoadB(f[1]))
        }
    } else if f[0] == "loadc"@ {
        if f.len() < 2 {
            Err(SyntaxErrorView { kind: SyntaxErrorKind::MissingOperand, lexeme: f[0] })
        } else {
            Ok(TokenView::LoadC(f[1]))
        }
    } else if f[0] == "storea"@ {
        if f.len() < 2 {
            Err(SyntaxErrorView { kind: SyntaxErrorKind::MissingOperand, lexeme: f[0] })
        } else {
            Ok(TokenView::StoreA(f[1]))
        }
    } else if f[0] == "storeb"@ {
        if f.len() < 2 {
            Err(SyntaxErrorView { kind: SyntaxErrorKind::MissingOperand, lexeme: f[0] })
        } else {
            Ok(TokenView::StoreB(f[1]))
        }
    } else if f[0] == "storec"@ {
        if f.len() < 2 {
            Err(SyntaxErrorView { kind: SyntaxErrorKind::MissingOperand, lexeme: f[0] })
        } else {
            Ok(TokenView::StoreC(f[1]))
        }
    } else if f[0] == "jump"@ {
        if f.len() < 2 {
            Err(SyntaxErrorView { kind: SyntaxErrorKind::MissingOperand, lexeme: f[0] })
        } else {
            Ok(TokenView::Jump(f[1]))
        }
    } else if f[0] == "jeq"@ {
        if f.len() < 2 {
            Err(SyntaxErrorView { kind: SyntaxErrorKind::MissingOperand, lexeme: f[0] })
        } else {
            Ok(TokenView::Jeq(f[1]))
        }
    } else if f[0] == "jneq"@ {
        if f.len() < 2 {
            Err(SyntaxErrorView { kind: SyntaxErrorKind::MissingOperand, lexeme: f[0] })
        } else {
            Ok(TokenView::Jneq(f[1]))
        }
    } else if f[0] == "jgt"@ {
        if f.len() < 2 {
            Err(SyntaxErrorView { kind: SyntaxErrorKind::MissingOperand, lexeme: f[0] })
        } else {
            Ok(TokenView::Jgt(f[1]))
        }
    } else if f[0] == "jlt"@ {
        if f.len() < 2 {
            Err(SyntaxErrorView { kind: SyntaxErrorKind::MissingOperand, lexeme: f[0] })
        } else {
            Ok(TokenView::Jlt(f[1]))
        }
    } else if f[0] == "u8"@ {
        if f.len() < 3 {
            Err(SyntaxErrorView { kind: SyntaxErrorKind::MissingOperand, lexeme: f[0] })
        } else if !valid_u8_literal(f[2]) {
            Err(SyntaxErrorView { kind: SyntaxErrorKind::InvalidNumber, lexeme: f[2] })
        } else {
            Ok(TokenView::U8Data(f[1], dec_val(f[2]) as u8))
        }
    } else {
        Err(SyntaxErrorView { kind: SyntaxErrorKind::UnknownMnemonic, lexeme: f[0] })
    }
}

/// The characters of `s`, one by one.
pub(crate) fn chars_of(s: &str) -> (r: Vec<char>)
    ensures
        r@ == s@,
{
    let n = s.unicode_len();
    let mut v: Vec<char> = Vec::new();
    let mut i: usize = 0;
    while i < n
        invariant
            n == s@.len(),
            i <= n,
            v@ == s@.subrange(0, i as int),
        decreases n - i,
    {
        v.push(s.get_char(i));
        proof {
            assert(v@ =~= s@.subrange(0, i + 1));
        }
        i = i + 1;
    }
    proof {
        assert(v@ =~= s@);
    }
    v
}

/// The fields of a line, as index ranges into its characters.
fn split_fields(chars: &Vec<char>) -> (fs: Vec<(usize, usize)>)
    ensures
        fields_of(chars@) == fs@.map_values(
            (|p: (usize, usize)| chars@.subrange(p.0 as int, p.1 as int)),
        ),
        forall|k: int| 0 <= k < fs@.len() ==> #[trigger] fs@[k].0 < fs@[k].1 <= chars@.len(),
{
    let n = chars.len();
    let mut fs: Vec<(usize, usize)> = Vec::new();
    let mut i: usize = 0;
    proof {
        assert(chars@.subrange(0, n as int) =~= chars@);
        assert(fs@.map_values((|p: (usize, usize)| chars@.subrange(p.0 as int, p.1 as int)))
            =~= Seq::<Seq<char>>::empty());
        assert(Seq::<Seq<char>>::empty() + fields_of(chars@) =~= fields_of(chars@));
    }
    while i < n
        invariant
            n == chars@.len(),
            i <= n,
            fields_of(chars@) == fs@.map_values(
                (|p: (usize, usize)| chars@.subrange(p.0 as int, p.1 as int)),
            ) + fields_of(chars@.subrange(i as int, n as int)),
            forall|k: int| 0 <= k < fs@.len() ==> #[trigger] fs@[k].0 < fs@[k].1 <= chars@.len(),
        decreases n - i,
    {
        let ghost rest = chars@.subrange(i as int, n as int);
        if is_space_char(chars[i]) {
            proof {
                assert(rest.subrange(1, rest.len() as int) =~= chars@.subrange(
                    i + 1,
                    n as int,
                ));
            }
            i = i + 1;
        } else {
            let mut j: usize = i + 1;
            while j < n && !is_space_char_at(chars, j)
                invariant
                    n == chars@.len(),
                    i < j <= n,
                    forall|k: int| i <= k < j ==> !is_space(#[trigger] chars@[k]),
                decreases n - j,
            {
                j = j + 1;
            }
            proof {
                lemma_word_len_at(chars@, i as int, j as int);
                lemma_word_len_le(rest);
                assert(rest.subrange(0, word_len(rest) as int) =~= chars@.subrange(
                    i as int,
                    j as int,
                ));
                assert(rest.subrange(word_len(rest) as int, rest.len() as int) =~= chars@.subrange(
                    j as int,
                    n as int,
                ));
            }
            let ghost old_fs = fs@;
            fs.push((i, j));
            proof {
                let view_of = |p: (usize, usize)| chars@.subrange(p.0 as int, p.1 as int);
                assert(fs@.map_values(view_of) =~= old_fs.map_values(view_of).push(
                    chars@.subrange(i as int, j as int),
                ));
                assert(fields_of(chars@) == fs@.map_values(view_of) + fields_of(
                    chars@.subrange(j as int, n as int),
                ));
            }
            i = j;
        }
    }
    proof {
        assert(chars@.subrange(n as int, n as int) =~= Seq::<char>::empty());
        assert(fs@.map_values((|p: (usize, usize)| chars@.subrange(p.0 as int, p.1 as int)))
            + Seq::<Seq<char>>::empty() =~= fs@.map_values(
            (|p: (usize, usize)| chars@.subrange(p.0 as int, p.1 as int)),
        ));
    }
    fs
}

/// The front word of `s` runs from index `i` to the first space at or after
/// `i` (or the end of the line).
proof fn lemma_word_len_at(s: Seq<char>, i: int, j: int)
    requires
        0 <= i <= j <= s.len(),
        forall|k: int| i <= k < j ==> !is_space(#[trigger] s[k]),
        j == s.len() || is_space(s[j]),
    ensures
        word_len(s.subrange(i, s.len() as int)) == j - i,
    decreases j - i,
{
    let rest = s.subrange(i, s.len() as int);
    if i == j {
        assert(rest.len() == 0 || is_space(rest[0]));
    } else {
        assert(!is_space(rest[0]));
        lemma_word_len_at(s, i + 1, j);
        assert(rest.subrange(1, rest.len() as int) =~= s.subrange(i + 1, s.len() as int));
    }
}

/// Whether a character separates fields.
fn is_space_char(c: char) -> (r: bool)
    ensures
        r == is_space(c),
{
    c == ' ' || c == '\t' || c == '\r'
}

/// Whether the character at `j` separates fields.
pub(crate) fn is_space_char_at(chars: &Vec<char>, j: usize) -> (r: bool)
    requires
        j < chars@.len(),
    ensures
        r == is_space(chars@[j as int]),
{
    is_space_char(chars[j])
}

/// Whether the characters from `start` to `end` spell exactly `w`.
fn word_eq_str(chars: &Vec<char>, start: usize, end: usize, w: &str) -> (r: bool)
    requires
        start <= end <= chars@.len(),
    ensures
        r == (chars@.subrange(start as int, end as int) == w@),
{
    let wlen = w.unicode_len();
    if end - start != wlen {
        return false;
    }
    let mut i: usize = 0;
    while i < wlen
        invariant
            start <= end <= chars@.len(),
            wlen == w@.len(),
            end - start == wlen,
            i <= wlen,
            forall|j: int| 0 <= j < i ==> chars@[start + j] == w@[j],
        decreases wlen - i,
    {
        let c = chars[start + i];
        let wc = w.get_char(i);
        if c != wc {
            proof {
                assert(chars@.subrange(start as int, end as int)[i as int] != w@[i as int]);
            }
            return false;
        }
        i = i + 1;
    }
    proof {
        assert(chars@.subrange(start as int, end as int) =~= w@);
    }
    true
}

/// Parse the characters from `start` to `end` as an 8-bit unsigned decimal
/// integer; `None` exactly when they are not one.
fn parse_u8_field(chars: &Vec<char>, start: usize, end: usize) -> (r: Option<u8>)
    requires
        start <= end <= chars@.len(),
    ensures
        match r {
            Some(v) => valid_u8_literal(chars@.subrange(start as int, end as int)) && v
                == dec_val(chars@.subrange(start as int, end as int)),
            None => !valid_u8_literal(chars@.subrange(start as int, end as int)),
        },
{
    let ghost whole = chars@.subrange(start as int, end as int);
    if start == end {
        return None;
    }
    let mut acc: u32 = 0;
    let mut i: usize = start;
    while i < end
        invariant
            start <= i <= end <= chars@.len(),
            whole == chars@.subrange(start as int, end as int),
            forall|j: int| start <= j < i ==> is_dec_digit(#[trigger] chars@[j]),
            acc == dec_val(chars@.subrange(start as int, i as int)),
            acc <= 255,
        decreases end - i,
    {
        let d = chars[i] as u32;
        if d < 48 || d > 57 {
            proof {
                assert(whole[i - start] == chars@[i as int]);
            }
            return None;
        }
        let ghost prefix = chars@.subrange(start as int, i as int);
        let ghost prefix2 = chars@.subrange(start as int, i + 1);
        proof {
            assert(prefix2.drop_last() =~= prefix);
            assert(prefix2.last() == chars@[i as int]);
        }
        let next: u32 = acc * 10 + (d - 48);
        if next > 255 {
            proof {
                assert(dec_val(prefix2) == next);
                assert(forall|j: int| 0 <= j < prefix2.len() ==> is_dec_digit(
                    #[trigger] prefix2[j],
                ));
                assert(prefix2 =~= whole.subrange(0, i + 1 - start));
                if valid_u8_literal(whole) {
                    lemma_dec_val_prefix(whole, i + 1 - start);
                }
            }
            return None;
        }
        acc = next;
        i = i + 1;
    }
    proof {
        assert(chars@.subrange(start as int, i as int) =~= whole);
    }
    Some(acc as u8)
}

/// The text of the characters from `start` to `end`, as an owned string.
pub(crate) fn lexeme_of(line: &str, start: usize, end: usize) -> (r: String)
    requires
        start <= end <= line@.len(),
    ensures
        r@ == line@.subrange(start as int, end as int),
{
    line.substring_char(start, end).to_owned()
}

impl Token {
    /// Tokenize one source line, exactly as [`parse_line_spec`] says.
    pub fn parse(line: &str) -> (r: Result<Token, SyntaxError>)
        ensures
            match r {
                Ok(t) => parse_line_spec(line@) == Ok::<TokenView, SyntaxErrorView>(t@),
                Err(e) => parse_line_spec(line@) == Err::<TokenView, SyntaxErrorView>(e@),
            },
    {
        let chars = chars_of(line);
        let fields = split_fields(&chars);
        let ghost f = fields_of(line@);
        if fields.len() == 0 {
            return Ok(Token::Ignore);
        }
        let (s0, e0) = fields[0];
        proof {
            assert(f[0] == chars@.subrange(s0 as int, e0 as int));
        }
        if e0 - s0 >= 2 && chars[s0] == '/' && chars[s0 + 1] == '/' {
            return Ok(Token::Ignore);
        }
        if word_eq_str(&chars, s0, e0, "nop") {
            return Ok(Token::Nop);
        }
        if word_eq_str(&chars, s0, e0, "exit") {
            if fields.len() < 2 {
                return Err(SyntaxError {
                    kind: SyntaxErrorKind::MissingOperand,
                    lexeme: lexeme_of(line, s0, e0),
                });
            }
            let (s1, e1) = fields[1];
            proof {
                assert(f[1] == chars@.subrange(s1 as int, e1 as int));
            }
            return match parse_u8_field(&chars, s1, e1) {
                Some(v) => Ok(Token::Exit(v)),
                None => Err(SyntaxError {
                    kind: SyntaxErrorKind::InvalidNumber,
                    lexeme: lexeme_of(line, s1, e1),
                }),
            };
        }
        if word_eq_str(&chars, s0, e0, "add") {
            return Ok(Token::Add);
        }
        if word_eq_str(&chars, s0, e0, "subtract") {
            return Ok(Token::Subtract);
        }
        if word_eq_str(&chars, s0, e0, "multiply") {
            return Ok(Token::Multiply);
        }
        let needs_label = word_eq_str(&chars, s0, e0, "loada") || word_eq_str(
            &chars,
            s0,
            e0,
            "loadb",
        ) || word_eq_str(&chars, s0, e0, "loadc") || word_eq_str(&chars, s0, e0, "storea")
            || word_eq_str(&chars, s0, e0, "storeb") || word_eq_str(&chars, s0, e0, "storec")
            || word_eq_str(&chars, s0, e0, "jump") || word_eq_str(&chars, s0, e0, "jeq")
            || word_eq_str(&chars, s0, e0, "jneq") || word_eq_str(&chars, s0, e0, "jgt")
            || word_eq_str(&chars, s0, e0, "jlt");
        if needs_label {
            if fields.len() < 2 {
                return Err(SyntaxError {
                    kind: SyntaxErrorKind::MissingOperand,
                    lexeme: lexeme_of(line, s0, e0),
                });
            }
            let (s1, e1) = fields[1];
            proof {
                assert(f[1] == chars@.subrange(s1 as int, e1 as int));
            }
            let label = lexeme_of(line, s1, e1);
            if word_eq_str(&chars, s0, e0, "loada") {
                return Ok(Token::LoadA(label));
            }
            if word_eq_str(&chars, s0, e0, "loadb") {
                return Ok(Token::LoadB(label));
            }
            if word_eq_str(&chars, s0, e0, "loadc") {
                return Ok(Token::LoadC(label));
            }
            if word_eq_str(&chars, s0, e0, "storea") {
                return Ok(Token::StoreA(label));
            }
            if word_eq_str(&chars, s0, e0, "storeb") {
                return Ok(Token::StoreB(label));
            }
            if word_eq_str(&chars, s0, e0, "storec") {
                return Ok(Token::StoreC(label));
            }
            if word_eq_str(&chars, s0, e0, "jump") {
                return Ok(Token::Jump(label));
            }
            if word_eq_str(&chars, s0, e0, "jeq") {
                return Ok(Token::Jeq(label));
            }
            if word_eq_str(&chars, s0, e0, "jneq") {
                return Ok(Token::Jneq(label));
            }
            if word_eq_str(&chars, s0, e0, "jgt") {
                return Ok(Token::Jgt(label));
            }
            return Ok(Token::Jlt(label));
        }
        if word_eq_str(&chars, s0, e0, "u8") {
            if fields.len() < 3 {
                return Err(SyntaxError {
                    kind: SyntaxErrorKind::MissingOperand,
                    lexeme: lexeme_of(line, s0, e0),
                });
            }
            let (s1, e1) = fields[1];
            let (s2, e2) = fields[2];
            proof {
                assert(f[1] == chars@.subrange(s1 as int, e1 as int));
                assert(f[2] == chars@.subrange(s2 as int, e2 as int));
            }
            return match parse_u8_field(&chars, s2, e2) {
                Some(v) => Ok(Token::U8Data(lexeme_of(line, s1, e1), v)),
                None => Err(SyntaxError {
                    kind: SyntaxErrorKind::InvalidNumber,
                    lexeme: lexeme_of(line, s2, e2),
                }),
            };
        }
        Err(SyntaxError {
            kind: SyntaxErrorKind::UnknownMnemonic,
            lexeme: lexeme_of(line, s0, e0),
        })
    }
}

/// The number of bytes one token encodes to: one for a plain instruction or
/// a data cell, two for `Exit`, five for an address-carrying instruction,
/// none for `Ignore`.
pub open spec fn token_len(t: TokenView) -> u32 {
    match t {
        TokenView::Nop => 1,
        TokenView::Exit(_) => 2,
        TokenView::U8Data(_, _) => 1,
        TokenView::Add => 1,
        TokenView::Subtract => 1,
        TokenView::Multiply => 1,
        TokenView::Ignore => 0,
        _ => 5,
    }
}

/// The number of bytes a token sequence encodes to.
pub open spec fn tokens_len(ts: Seq<TokenView>) -> int
    decreases ts.len(),
{
    if ts.len() == 0 {
        0
    } else {
        token_len(ts[0]) + tokens_len(ts.subrange(1, ts.len() as int))
    }
}

/// A token sequence never encodes to a negative number of bytes.
pub proof fn lemma_tokens_len_nonneg(ts: Seq<TokenView>)
    ensures
        tokens_len(ts) >= 0,
    decreases ts.len(),
{
    if ts.len() > 0 {
        lemma_tokens_len_nonneg(ts.subrange(1, ts.len() as int));
    }
}

/// The number of bytes one token encodes to.
pub fn token_byte_len(token: &Token) -> (r: u32)
    ensures
        r == token_len(token@),
{
    match token {
        Token::Nop => 1,
        Token::Exit(_) => 2,
        Token::U8Data(_, _) => 1,
        Token::Add => 1,
        Token::Subtract => 1,
        Token::Multiply => 1,
        Token::Ignore => 0,
        _ => 5,
    }
}

/// The total number of bytes a token list encodes to: the section-sizing
/// pass of the assembler.
pub fn calc_byte_len(tokens: &Vec<Token>) -> (size: u32)
    requires
        tokens_len(views_of(tokens@)) <= u32::MAX,
    ensures
        size == tokens_len(views_of(tokens@)),
{
    let ghost all = views_of(tokens@);
    let n = tokens.len();
    let mut size: u32 = 0;
    let mut i: usize = 0;
    proof {
        assert(all.subrange(0, n as int) =~= all);
    }
    while i < n
        invariant
            n == tokens@.len(),
            i <= n,
            all == views_of(tokens@),
            tokens_len(all) <= u32::MAX,
            size + tokens_len(all.subrange(i as int, n as int)) == tokens_len(all),
        decreases n - i,
    {
        let ghost rest = all.subrange(i as int, n as int);
        proof {
            assert(rest[0] == all[i as int]);
            assert(rest.subrange(1, rest.len() as int) =~= all.subrange(i + 1, n as int));
            lemma_tokens_len_nonneg(all.subrange(i + 1, n as int));
        }
        size = size + token_byte_len(&tokens[i]);
        i = i + 1;
    }
    proof {
        assert(all.subrange(n as int, n as int) =~= Seq::<TokenView>::empty());
    }
    size
}

} // verus!
