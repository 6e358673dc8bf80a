//! The assembler back end: section splitting, layout, and linking.
//!
//! A source program is a list of lines.  A line spelling `<name>:` (letters
//! only, whitespace around it ignored) opens a new section; every other line
//! is tokenized into the current section.  The first section is the data
//! section and holds `u8` declarations; every later section is a code
//! section whose name becomes a jump target.  The linker sizes the sections,
//! assigns every label an absolute address, and emits the final image: a
//! leading jump to the first code byte, the data bytes, then the code bytes.

use vstd::prelude::*;

verus! {

use crate::tokens::{
    calc_byte_len,
    Token,
    TokenView,
    SyntaxError,
    SyntaxErrorView,
    SyntaxErrorKind,
    views_of,
    token_len,
    tokens_len,
    lemma_tokens_len_nonneg,
    parse_line_spec,
    is_space,
    chars_of,
    is_space_char_at,
    lexeme_of,
};

/// The linker met a reference to a label that no declaration binds.
#[derive(Debug, PartialEq)]
pub struct LinkError {
    pub label: String,
}

/// The abstract form of a linker failure.
pub ghost struct LinkErrorView {
    pub label: Seq<char>,
}

impl View for LinkError {
    type V = LinkErrorView;

    open spec fn view(&self) -> LinkErrorView {
        LinkErrorView { label: self.label@ }
    }
}

/// Why a program failed to assemble.  Assembly is all-or-nothing: on any of
/// these, no bytes are produced.
#[derive(Debug, PartialEq)]
pub enum AsmError {
    /// A line failed to tokenize, or a token sat in the wrong place; carries
    /// the 0-based line index.
    Syntax(usize, SyntaxError),
    /// A label reference that resolution cannot satisfy.
    Link(LinkError),
    /// The program has no section header, hence no entry point.
    NoSections,
}

/// The abstract form of an assembly failure.
pub ghost enum AsmErrorView {
    Syntax(int, SyntaxErrorView),
    Link(LinkErrorView),
    NoSections,
}

impl View for AsmError {
    type V = AsmErrorView;

    open spec fn view(&self) -> AsmErrorView {
        match self {
            AsmError::Syntax(line, e) => AsmErrorView::Syntax(*line as int, e@),
            AsmError::Link(e) => AsmErrorView::Link(e@),
            AsmError::NoSections => AsmErrorView::NoSections,
        }
    }
}

/// The views of a list of lines.
pub open spec fn line_views(lines: Seq<String>) -> Seq<Seq<char>> {
    lines.map_values(|s: String| s@)
}

/// The views of a list of labels.
pub open spec fn label_views(labels: Seq<String>) -> Seq<Seq<char>> {
    labels.map_values(|s: String| s@)
}

/// The views of a list of token lists.
pub open spec fn section_views(sections: Seq<Vec<Token>>) -> Seq<Seq<TokenView>> {
    sections.map_values(|v: Vec<Token>| views_of(v@))
}

/// `s` without its leading spaces.
pub open spec fn trim_front(s: Seq<char>) -> Seq<char>
    decreases s.len(),
{
    if s.len() > 0 && is_space(s[0]) {
        trim_front(s.subrange(1, s.len() as int))
    } else {
        s
    }
}

/// `s` without its trailing spaces.
pub open spec fn trim_back(s: Seq<char>) -> Seq<char>
    decreases s.len(),
{
    if s.len() > 0 && is_space(s.last()) {
        trim_back(s.drop_last())
    } else {
        s
    }
}

/// `s` without leading and trailing spaces.
pub open spec fn trimmed(s: Seq<char>) -> Seq<char> {
    trim_back(trim_front(s))
}

/// An ASCII letter, the only characters a section name may hold.
pub open spec fn is_ascii_letter(c: char) -> bool {
    65 <= c as u32 <= 90 || 97 <= c as u32 <= 122
}

/// A section header: a line that, once trimmed, is one or more letters
/// followed by a colon and nothing else.
pub open spec fn is_header(line: Seq<char>) -> bool {
    let t = trimmed(line);
    &&& t.len() >= 2
    &&& t.last() == ':'
    &&& forall|k: int| 0 <= k < t.len() - 1 ==> is_ascii_letter(#[trigger] t[k])
}

/// The name a header line declares: the trimmed line without its colon.
pub open spec fn header_name(line: Seq<char>) -> Seq<char> {
    trimmed(line).drop_last()
}

/// Dropping leading spaces is cutting at the first non-space.
proof fn lemma_trim_front_at(s: Seq<char>, a: int)
    requires
        0 <= a <= s.len(),
        forall|k: int| 0 <= k < a ==> is_space(#[trigger] s[k]),
        a == s.len() || !is_space(s[a]),
    ensures
        trim_front(s) == s.subrange(a, s.len() as int),
    decreases a,
{
    if a == 0 {
        assert(s.subrange(0, s.len() as int) =~= s);
    } else {
        let rest = s.subrange(1, s.len() as int);
        lemma_trim_front_at(rest, a - 1);
        assert(rest.subrange(a - 1, rest.len() as int) =~= s.subrange(a, s.len() as int));
    }
}

/// Dropping trailing spaces is cutting after the last non-space.
proof fn lemma_trim_back_at(s: Seq<char>, b: int)
    requires
        0 <= b <= s.len(),
        forall|k: int| b <= k < s.len() ==> is_space(#[trigger] s[k]),
        b == 0 || !is_space(s[b - 1]),
    ensures
        trim_back(s) == s.subrange(0, b),
    decreases s.len(),
{
    if b == s.len() {
        assert(s.subrange(0, b) =~= s);
    } else {
        assert(is_space(s.last()));
        lemma_trim_back_at(s.drop_last(), b);
        assert(s.drop_last().subrange(0, b) =~= s.subrange(0, b));
    }
}

/// Recognize a header line and hand out the name it declares.
pub fn header_of(line: &str) -> (r: Option<String>)
    ensures
        match r {
            Some(name) => is_header(line@) && name@ == header_name(line@),
            None => !is_header(line@),
        },
{
    let chars = chars_of(line);
    let n = chars.len();
    let mut a: usize = 0;
    while a < n && is_space_char_at(&chars, a)
        invariant
            n == chars@.len(),
            a <= n,
            forall|k: int| 0 <= k < a ==> is_space(#[trigger] chars@[k]),
        decreases n - a,
    {
        a = a + 1;
    }
    let mut b: usize = n;
    while b > a && is_space_char_at(&chars, b - 1)
        invariant
            n == chars@.len(),
            a <= b <= n,
            forall|k: int| b <= k < n ==> is_space(#[trigger] chars@[k]),
        decreases b,
    {
        b = b - 1;
    }
    proof {
        lemma_trim_front_at(chars@, a as int);
        let rest = chars@.subrange(a as int, n as int);
        lemma_trim_back_at(rest, b - a);
        assert(rest.subrange(0, b - a) =~= chars@.subrange(a as int, b as int));
        assert(trimmed(line@) == chars@.subrange(a as int, b as int));
    }
    let ghost t = trimmed(line@);
    if b - a < 2 {
        return None;
    }
    if chars[b - 1] != ':' {
        proof {
            assert(t.last() == chars@[b - 1]);
        }
        return None;
    }
    let mut k: usize = a;
    while k < b - 1
        invariant
            n == chars@.len(),
            chars@ == line@,
            a <= k <= b - 1,
            2 <= b - a,
            b <= n,
            t == trimmed(line@),
            t == chars@.subrange(a as int, b as int),
            t.last() == ':',
            forall|j: int| a <= j < k ==> is_ascii_letter(#[trigger] chars@[j]),
        decreases b - k,
    {
        let c = chars[k] as u32;
        if !((65 <= c && c <= 90) || (97 <= c && c <= 122)) {
            proof {
                assert(t[k - a] == chars@[k as int]);
                assert(!is_ascii_letter(t[k - a]));
                assert(0 <= k - a < t.len() - 1);
                assert(!is_header(line@));
            }
            return None;
        }
        k = k + 1;
    }
    proof {
        assert(forall|j: int| 0 <= j < t.len() - 1 ==> is_ascii_letter(#[trigger] t[j]));
        assert(t.last() == chars@[b - 1]);
        assert(is_header(line@));
        assert(t.drop_last() =~= line@.subrange(a as int, (b - 1) as int));
    }
    Some(lexeme_of(line, a, b - 1))
}

/// The labels of a program's sections and their token lists, aligned.
pub ghost struct SectionsView {
    pub labels: Seq<Seq<char>>,
    pub tokens: Seq<Seq<TokenView>>,
}

/// The bytes the first `i` sections encode to, summed.
pub open spec fn all_len(sections: Seq<Seq<TokenView>>, i: int) -> int
    decreases i,
{
    if i <= 0 {
        0
    } else {
        all_len(sections, i - 1) + tokens_len(sections[i - 1])
    }
}

/// The data section holds only `u8` declarations and ignored lines.
pub open spec fn data_only(ts: Seq<TokenView>) -> bool {
    forall|j: int|
        0 <= j < ts.len() ==> ((#[trigger] ts[j]) is U8Data || ts[j] is Ignore)
}

/// A code section holds no `u8` declaration.
pub open spec fn no_data(ts: Seq<TokenView>) -> bool {
    forall|j: int| 0 <= j < ts.len() ==> !((#[trigger] ts[j]) is U8Data)
}

/// Every token sits in the right kind of section.
pub open spec fn placed_ok(sections: Seq<Seq<TokenView>>) -> bool {
    &&& sections.len() >= 1 ==> data_only(sections[0])
    &&& forall|i: int| 1 <= i < sections.len() ==> no_data(#[trigger] sections[i])
}

/// Scan lines from index `i` with the sections gathered so far.  A header
/// line opens a section; any other line is tokenized into the current one.
/// A token before the first header, an instruction in the data section, or
/// a declaration in a code section is an error at its line.
pub open spec fn sections_from(
    lines: Seq<Seq<char>>,
    i: int,
    acc: SectionsView,
) -> Result<SectionsView, AsmErrorView>
    decreases lines.len() - i when 0 <= i <= lines.len()
{
    if i == lines.len() {
        Ok(acc)
    } else {
        let line = lines[i];
        if is_header(line) {
            sections_from(
                lines,
                i + 1,
                SectionsView {
                    labels: acc.labels.push(header_name(line)),
                    tokens: acc.tokens.push(Seq::empty()),
                },
            )
        } else {
            match parse_line_spec(line) {
                Err(e) => Err(AsmErrorView::Syntax(i, e)),
                Ok(tv) => if acc.labels.len() == 0 {
                    if tv is Ignore {
                        sections_from(lines, i + 1, acc)
                    } else {
                        Err(
                            AsmErrorView::Syntax(
                                i,
                                SyntaxErrorView {
                                    kind: SyntaxErrorKind::OutsideSection,
                                    lexeme: line,
                                },
                            ),
                        )
                    }
                } else if acc.labels.len() == 1 && !(tv is U8Data) && !(tv is Ignore) {
                    Err(
                        AsmErrorView::Syntax(
                            i,
                            SyntaxErrorView {
                                kind: SyntaxErrorKind::MisplacedInstruction,
                                lexeme: line,
                            },
                        ),
                    )
                } else if acc.labels.len() >= 2 && tv is U8Data {
                    Err(
                        AsmErrorView::Syntax(
                            i,
                            SyntaxErrorView { kind: SyntaxErrorKind::MisplacedData, lexeme: line },
                        ),
                    )
                } else {
                    let m = acc.tokens.len() as int;
                    sections_from(
                        lines,
                        i + 1,
                        SectionsView {
                            labels: acc.labels,
                            tokens: acc.tokens.update(m - 1, acc.tokens[m - 1].push(tv)),
                        },
                    )
                },
            }
        }
    }
}

/// Split a whole program into sections; a program without any section
/// header has no entry point and is refused.
pub open spec fn split_sections_spec(lines: Seq<Seq<char>>) -> Result<
    SectionsView,
    AsmErrorView,
> {
    let empty = SectionsView { labels: Seq::empty(), tokens: Seq::empty() };
    match sections_from(lines, 0, empty) {
        Ok(sv) => if sv.labels.len() == 0 {
            Err(AsmErrorView::NoSections)
        } else {
            Ok(sv)
        },
        Err(e) => Err(e),
    }
}

/// Appending a token adds its length to a section's byte count.
proof fn lemma_tokens_len_push(ts: Seq<TokenView>, t: TokenView)
    ensures
        tokens_len(ts.push(t)) == tokens_len(ts) + token_len(t),
    decreases ts.len(),
{
    assert(ts.push(t)[0] == if ts.len() == 0 { t } else { ts[0] });
    if ts.len() == 0 {
        assert(ts.push(t).subrange(1, 1) =~= Seq::<TokenView>::empty());
        assert(tokens_len(Seq::<TokenView>::empty()) == 0);
    } else {
        assert(ts.push(t).subrange(1, ts.len() + 1 as int) =~= ts.subrange(1, ts.len() as int).push(
            t,
        ));
        lemma_tokens_len_push(ts.subrange(1, ts.len() as int), t);
    }
}

/// Two section lists that agree on their first `i` sections encode those to
/// the same number of bytes.
proof fn lemma_all_len_agree(s1: Seq<Seq<TokenView>>, s2: Seq<Seq<TokenView>>, i: int)
    requires
        forall|k: int| 0 <= k < i ==> s1[k] == s2[k],
    ensures
        all_len(s1, i) == all_len(s2, i),
    decreases i,
{
    if i > 0 {
        lemma_all_len_agree(s1, s2, i - 1);
    }
}

/// The state the section scanner carries, as one abstract value.
pub open spec fn gather_view(
    labels: Seq<String>,
    done: Seq<Vec<Token>>,
    cur: Seq<Token>,
    have: bool,
) -> SectionsView {
    if have {
        SectionsView {
            labels: label_views(labels),
            tokens: section_views(done).push(views_of(cur)),
        }
    } else {
        SectionsView { labels: Seq::empty(), tokens: Seq::empty() }
    }
}

/// Split a program into its sections: the section names in source order,
/// and each section's tokens.  Exactly as [`split_sections_spec`] says; on
/// success the sections are also well-placed and their total encoded size
/// is bounded by five bytes per line.
pub fn get_sections(lines: &Vec<String>) -> (r: Result<
    (Vec<String>, Vec<Vec<Token>>),
    AsmError,
>)
    ensures
        match r {
            Ok(p) => {
                &&& split_sections_spec(line_views(lines@)) == Ok::<
                    SectionsView,
                    AsmErrorView,
                >(SectionsView { labels: label_views(p.0@), tokens: section_views(p.1@) })
                &&& p.0@.len() == p.1@.len() >= 1
                &&& placed_ok(section_views(p.1@))
                &&& all_len(section_views(p.1@), p.1@.len() as int) <= 5 * lines@.len()
            },
            Err(e) => split_sections_spec(line_views(lines@)) == Err::<
                SectionsView,
                AsmErrorView,
            >(e@),
        },
{
    let ghost lv = line_views(lines@);
    let n = lines.len();
    let mut labels: Vec<String> = Vec::new();
    let mut done: Vec<Vec<Token>> = Vec::new();
    let mut cur: Vec<Token> = Vec::new();
    let mut have: bool = false;
    let mut i: usize = 0;
    while i < n
        invariant
            n == lines@.len(),
            lv == line_views(lines@),
            i <= n,
            have ==> labels@.len() == done@.len() + 1,
            !have ==> labels@.len() == 0 && done@.len() == 0 && cur@.len() == 0,
            sections_from(lv, i as int, gather_view(labels@, done@, cur@, have))
                == sections_from(
                lv,
                0,
                SectionsView { labels: Seq::empty(), tokens: Seq::empty() },
            ),
            placed_ok(gather_view(labels@, done@, cur@, have).tokens),
            all_len(
                gather_view(labels@, done@, cur@, have).tokens,
                gather_view(labels@, done@, cur@, have).tokens.len() as int,
            ) <= 5 * i,
        decreases n - i,
    {
        let ghost acc = gather_view(labels@, done@, cur@, have);
        proof {
            assert(lv[i as int] == lines@[i as int]@);
        }
        let line = &lines[i];
        match header_of(line.as_str()) {
            Some(name) => {
                let ghost acc2 = SectionsView {
                    labels: acc.labels.push(header_name(lv[i as int])),
                    tokens: acc.tokens.push(Seq::empty()),
                };
                if have {
                    done.push(cur);
                    cur = Vec::new();
                } else {
                    have = true;
                }
                labels.push(name);
                proof {
                    let now = gather_view(labels@, done@, cur@, have);
                    assert(views_of(cur@) =~= Seq::<TokenView>::empty());
                    assert(now.labels =~= acc2.labels);
                    assert(now.tokens =~= acc2.tokens);
                    assert(now == acc2);
                    assert(is_header(lv[i as int]));
                    assert(sections_from(lv, i as int, acc) == sections_from(lv, i + 1, now));
                    assert(tokens_len(Seq::<TokenView>::empty()) == 0);
                    lemma_all_len_agree(now.tokens, acc.tokens, acc.tokens.len() as int);
                    assert(all_len(now.tokens, now.tokens.len() as int) <= 5 * (i + 1));
                }
            },
            None => {
                match Token::parse(line.as_str()) {
                    Err(e) => {
                        proof {
                            assert(sections_from(lv, i as int, acc) == Err::<
                                SectionsView,
                                AsmErrorView,
                            >(AsmErrorView::Syntax(i as int, e@)));
                        }
                        return Err(AsmError::Syntax(i, e));
                    },
                    Ok(t) => {
                        let is_ignore = match &t {
                            Token::Ignore => true,
                            _ => false,
                        };
                        let is_data = match &t {
                            Token::U8Data(_, _) => true,
                            _ => false,
                        };
                        if !have {
                            if !is_ignore {
                                proof {
                                    assert(sections_from(lv, i as int, acc) == Err::<
                                        SectionsView,
                                        AsmErrorView,
                                    >(
                                        AsmErrorView::Syntax(
                                            i as int,
                                            SyntaxErrorView {
                                                kind: SyntaxErrorKind::OutsideSection,
                                                lexeme: lv[i as int],
                                            },
                                        ),
                                    ));
                                }
                                return Err(
                                    AsmError::Syntax(
                                        i,
                                        SyntaxError {
                                            kind: SyntaxErrorKind::OutsideSection,
                                            lexeme: line.clone(),
                                        },
                                    ),
                                );
                            }
                            // no section yet: the ignored line is dropped
                            proof {
                                assert(sections_from(lv, i as int, acc) == sections_from(
                                    lv,
                                    i + 1,
                                    acc,
                                ));
                            }
                        } else {
                            let in_data = done.len() == 0;
                            if in_data && !is_data && !is_ignore {
                                proof {
                                    assert(acc.labels.len() == 1);
                                    assert(sections_from(lv, i as int, acc) == Err::<
                                        SectionsView,
                                        AsmErrorView,
                                    >(
                                        AsmErrorView::Syntax(
                                            i as int,
                                            SyntaxErrorView {
                                                kind: SyntaxErrorKind::MisplacedInstruction,
                                                lexeme: lv[i as int],
                                            },
                                        ),
                                    ));
                                }
                                return Err(
                                    AsmError::Syntax(
                                        i,
                                        SyntaxError {
                                            kind: SyntaxErrorKind::MisplacedInstruction,
                                            lexeme: line.clone(),
                                        },
                                    ),
                                );
                            }
                            if !in_data && is_data {
                                proof {
                                    assert(acc.labels.len() >= 2);
                                    assert(sections_from(lv, i as int, acc) == Err::<
                                        SectionsView,
                                        AsmErrorView,
                                    >(
                                        AsmErrorView::Syntax(
                                            i as int,
                                            SyntaxErrorView {
                                                kind: SyntaxErrorKind::MisplacedData,
                                                lexeme: lv[i as int],
                                            },
                                        ),
                                    ));
                                }
                                return Err(
                                    AsmError::Syntax(
                                        i,
                                        SyntaxError {
                                            kind: SyntaxErrorKind::MisplacedData,
                                            lexeme: line.clone(),
                                        },
                                    ),
                                );
                            }
                            let ghost tv = t@;
                            let ghost m = acc.tokens.len() as int;
                            let ghost acc2 = SectionsView {
                                labels: acc.labels,
                                tokens: acc.tokens.update(m - 1, acc.tokens[m - 1].push(tv)),
                            };
                            cur.push(t);
                            proof {
                                let now = gather_view(labels@, done@, cur@, have);
                                assert(views_of(cur@) =~= acc.tokens[m - 1].push(tv));
                                assert(now.tokens =~= acc2.tokens);
                                assert(now.labels == acc2.labels);
                                assert(now == acc2);
                                assert(sections_from(lv, i as int, acc) == sections_from(
                                    lv,
                                    i + 1,
                                    acc2,
                                ));
                                lemma_all_len_agree(now.tokens, acc.tokens, m - 1);
                                lemma_tokens_len_push(acc.tokens[m - 1], tv);
                                assert(token_len(tv) <= 5);
                                assert(all_len(now.tokens, m) == all_len(acc.tokens, m) + token_len(
                                    tv,
                                ));
                            }
                        }
                    },
                }
            },
        }
        i = i + 1;
    }
    let ghost accf = gather_view(labels@, done@, cur@, have);
    proof {
        assert(sections_from(lv, n as int, accf) == Ok::<SectionsView, AsmErrorView>(accf));
    }
    if !have {
        return Err(AsmError::NoSections);
    }
    done.push(cur);
    proof {
        assert(section_views(done@) =~= accf.tokens);
        assert(label_views(labels@) == accf.labels);
    }
    Ok((labels, done))
}

/// The width of the jump instruction that leads every image: one opcode
/// byte and a four-byte big-endian address.
pub const JUMP_OFFSET: u32 = 5;

/// The named 8-bit cells a data section declares, in declaration order.
pub open spec fn data_cells(ts: Seq<TokenView>) -> Seq<(Seq<char>, u8)>
    decreases ts.len(),
{
    if ts.len() == 0 {
        Seq::empty()
    } else {
        let front = data_cells(ts.drop_last());
        match ts.last() {
            TokenView::U8Data(name, value) => front.push((name, value)),
            _ => front,
        }
    }
}

/// The bytes of the data section: each cell's declared value, in order.
pub open spec fn cells_bytes(cells: Seq<(Seq<char>, u8)>) -> Seq<u8> {
    cells.map_values(|c: (Seq<char>, u8)| c.1)
}

/// The address bound to each data label: the cell's declaration index,
/// offset past the leading jump.
pub open spec fn data_entries(cells: Seq<(Seq<char>, u8)>) -> Seq<(Seq<char>, u32)> {
    Seq::new(cells.len(), |j: int| (cells[j].0, (JUMP_OFFSET + j) as u32))
}

/// The address bound to each code section label: the byte offset where its
/// first instruction lands, past the leading jump, the data section, and
/// every earlier code section.
pub open spec fn code_entries(sv: SectionsView) -> Seq<(Seq<char>, u32)> {
    Seq::new(
        (sv.labels.len() - 1) as nat,
        |k: int| (sv.labels[k + 1], (JUMP_OFFSET + all_len(sv.tokens, k + 1)) as u32),
    )
}

/// The whole address map, data labels first; a lookup takes the first
/// entry whose name matches.
pub open spec fn addr_entries(sv: SectionsView) -> Seq<(Seq<char>, u32)> {
    data_entries(data_cells(sv.tokens[0])) + code_entries(sv)
}

/// The first address bound to `name`, if any.
pub open spec fn lookup_addr(entries: Seq<(Seq<char>, u32)>, name: Seq<char>) -> Option<u32>
    decreases entries.len(),
{
    if entries.len() == 0 {
        None
    } else if entries[0].0 == name {
        Some(entries[0].1)
    } else {
        lookup_addr(entries.subrange(1, entries.len() as int), name)
    }
}

/// A 32-bit value as four bytes, big-endian.
pub open spec fn be_bytes(v: u32) -> Seq<u8> {
    seq![
        (v / 0x100_0000) as u8,
        ((v / 0x1_0000) % 0x100) as u8,
        ((v / 0x100) % 0x100) as u8,
        (v % 0x100) as u8,
    ]
}

/// The label a token references, if any.
pub open spec fn refs_of(t: TokenView) -> Option<Seq<char>> {
    match t {
        TokenView::LoadA(l) => Some(l),
        TokenView::LoadB(l) => Some(l),
        TokenView::LoadC(l) => Some(l),
        TokenView::StoreA(l) => Some(l),
        TokenView::StoreB(l) => Some(l),
        TokenView::StoreC(l) => Some(l),
        TokenView::Jump(l) => Some(l),
        TokenView::Jeq(l) => Some(l),
        TokenView::Jneq(l) => Some(l),
        TokenView::Jgt(l) => Some(l),
        TokenView::Jlt(l) => Some(l),
        _ => None,
    }
}

/// The bytes one code-section token encodes to: the opcode byte, then the
/// operand.  A label operand is resolved against the address map; a name
/// the map does not bind is a link error, and nothing is encoded.
pub open spec fn encode_token(t: TokenView, entries: Seq<(Seq<char>, u32)>) -> Result<
    Seq<u8>,
    LinkErrorView,
> {
    match t {
        TokenView::Nop => Ok(seq![1u8]),
        TokenView::Exit(value) => Ok(seq![2u8, value]),
        TokenView::Add => Ok(seq![3u8]),
        TokenView::Subtract => Ok(seq![4u8]),
        TokenView::Multiply => Ok(seq![5u8]),
        TokenView::LoadA(l) => match lookup_addr(entries, l) {
            Some(a) => Ok(seq![6u8] + be_bytes(a)),
            None => Err(LinkErrorView { label: l }),
        },
        TokenView::LoadB(l) => match lookup_addr(entries, l) {
            Some(a) => Ok(seq![7u8] + be_bytes(a)),
            None => Err(LinkErrorView { label: l }),
        },
        TokenView::LoadC(l) => match lookup_addr(entries, l) {
            Some(a) => Ok(seq![8u8] + be_bytes(a)),
            None => Err(LinkErrorView { label: l }),
        },
        TokenView::StoreA(l) => match lookup_addr(entries, l) {
            Some(a) => Ok(seq![9u8] + be_bytes(a)),
            None => Err(LinkErrorView { label: l }),
        },
        TokenView::StoreB(l) => match lookup_addr(entries, l) {
            Some(a) => Ok(seq![10u8] + be_bytes(a)),
            None => Err(LinkErrorView { label: l }),
        },
        TokenView::StoreC(l) => match lookup_addr(entries, l) {
            Some(a) => Ok(seq![11u8] + be_bytes(a)),
            None => Err(LinkErrorView { label: l }),
        },
        TokenView::Jump(l) => match lookup_addr(entries, l) {
            Some(a) => Ok(seq![12u8] + be_bytes(a)),
            None => Err(LinkErrorView { label: l }),
        },
        TokenView::Jeq(l) => match lookup_addr(entries, l) {
            Some(a) => Ok(seq![13u8] + be_bytes(a)),
            None => Err(LinkErrorView { label: l }),
        },
        TokenView::Jneq(l) => match lookup_addr(entries, l) {
            Some(a) => Ok(seq![14u8] + be_bytes(a)),
            None => Err(LinkErrorView { label: l }),
        },
        TokenView::Jgt(l) => match lookup_addr(entries, l) {
            Some(a) => Ok(seq![15u8] + be_bytes(a)),
            None => Err(LinkErrorView { label: l }),
        },
        TokenView::Jlt(l) => match lookup_addr(entries, l) {
            Some(a) => Ok(seq![16u8] + be_bytes(a)),
            None => Err(LinkErrorView { label: l }),
        },
        TokenView::U8Data(_, _) => Ok(Seq::empty()),
        TokenView::Ignore => Ok(Seq::empty()),
    }
}

/// The bytes a whole token list encodes to; the first failing token's
/// error wins.
pub open spec fn encode_tokens(ts: Seq<TokenView>, entries: Seq<(Seq<char>, u32)>) -> Result<
    Seq<u8>,
    LinkErrorView,
>
    decreases ts.len(),
{
    if ts.len() == 0 {
        Ok(Seq::empty())
    } else {
        match encode_tokens(ts.drop_last(), entries) {
            Err(e) => Err(e),
            Ok(bs) => match encode_token(ts.last(), entries) {
                Err(e) => Err(e),
                Ok(b) => Ok(bs + b),
            },
        }
    }
}

/// The bytes of code sections `1..i`, concatenated in source order.
pub open spec fn encode_sections_upto(
    sections: Seq<Seq<TokenView>>,
    entries: Seq<(Seq<char>, u32)>,
    i: int,
) -> Result<Seq<u8>, LinkErrorView>
    decreases i,
{
    if i <= 1 {
        Ok(Seq::empty())
    } else {
        match encode_sections_upto(sections, entries, i - 1) {
            Err(e) => Err(e),
            Ok(bs) => match encode_tokens(sections[i - 1], entries) {
                Err(e) => Err(e),
                Ok(b) => Ok(bs + b),
            },
        }
    }
}

/// The layout and linking pass: the final image is a jump to the first
/// code byte, then the data bytes, then the code bytes; or the first link
/// error.
pub open spec fn link_spec(sv: SectionsView) -> Result<Seq<u8>, LinkErrorView>
    recommends
        sv.labels.len() == sv.tokens.len() >= 1,
{
    let entries = addr_entries(sv);
    match encode_sections_upto(sv.tokens, entries, sv.tokens.len() as int) {
        Err(e) => Err(e),
        Ok(code) => Ok(
            seq![12u8] + be_bytes((JUMP_OFFSET + tokens_len(sv.tokens[0])) as u32) + cells_bytes(
                data_cells(sv.tokens[0]),
            ) + code,
        ),
    }
}

/// What a whole source program assembles to: its sections, laid out and
/// linked; or the first error.
pub open spec fn assemble_spec(lines: Seq<Seq<char>>) -> Result<Seq<u8>, AsmErrorView> {
    match split_sections_spec(lines) {
        Err(e) => Err(e),
        Ok(sv) => match link_spec(sv) {
            Err(e) => Err(AsmErrorView::Link(e)),
            Ok(bytes) => Ok(bytes),
        },
    }
}

/// No section list encodes to a negative number of bytes.
proof fn lemma_all_len_nonneg(sections: Seq<Seq<TokenView>>, i: int)
    ensures
        all_len(sections, i) >= 0,
    decreases i,
{
    if i > 0 {
        lemma_all_len_nonneg(sections, i - 1);
        lemma_tokens_len_nonneg(sections[i - 1]);
    }
}

/// Taking more sections never shrinks the byte count.
proof fn lemma_all_len_mono(sections: Seq<Seq<TokenView>>, i: int, j: int)
    requires
        i <= j,
    ensures
        all_len(sections, i) <= all_len(sections, j),
    decreases j - i,
{
    if i < j {
        lemma_all_len_mono(sections, i, j - 1);
        lemma_tokens_len_nonneg(sections[j - 1]);
    }
}

/// The views of the address-map entries a linker run builds.
pub open spec fn entry_views(entries: Seq<(String, u32)>) -> Seq<(Seq<char>, u32)> {
    entries.map_values(|p: (String, u32)| (p.0@, p.1))
}

/// Resolve `name` against the address map: the first entry that carries
/// the name wins.
fn lookup_entry(entries: &Vec<(String, u32)>, name: &String) -> (r: Option<u32>)
    ensures
        r == lookup_addr(entry_views(entries@), name@),
{
    let ghost ev = entry_views(entries@);
    let n = entries.len();
    let mut i: usize = 0;
    proof {
        assert(ev.subrange(0, n as int) =~= ev);
    }
    while i < n
        invariant
            n == entries@.len(),
            i <= n,
            ev == entry_views(entries@),
            lookup_addr(ev, name@) == lookup_addr(ev.subrange(i as int, n as int), name@),
        decreases n - i,
    {
        let ghost rest = ev.subrange(i as int, n as int);
        proof {
            assert(rest[0] == ev[i as int]);
            assert(rest.subrange(1, rest.len() as int) =~= ev.subrange(i + 1, n as int));
        }
        let e = &entries[i];
        if e.0 == *name {
            return Some(e.1);
        }
        i = i + 1;
    }
    proof {
        assert(ev.subrange(n as int, n as int) =~= Seq::<(Seq<char>, u32)>::empty());
    }
    None
}

/// Emit a 32-bit value as four big-endian bytes.
fn push_be(bytes: &mut Vec<u8>, v: u32)
    ensures
        final(bytes)@ == old(bytes)@ + be_bytes(v),
{
    proof {
        assert(v / 0x100_0000 < 256) by (nonlinear_arith)
            requires
                v <= u32::MAX,
        ;
    }
    let b0 = (v / 0x100_0000) as u8;
    let b1 = ((v / 0x1_0000) % 0x100) as u8;
    let b2 = ((v / 0x100) % 0x100) as u8;
    let b3 = (v % 0x100) as u8;
    bytes.push(b0);
    bytes.push(b1);
    bytes.push(b2);
    bytes.push(b3);
    proof {
        assert(bytes@ =~= old(bytes)@ + be_bytes(v));
    }
}

/// Lay out and link tokenized sections into the final byte image, exactly
/// as [`link_spec`] says: on success the complete image, on failure the
/// first unresolved label, and no bytes at all.
#[verifier::rlimit(100)]
pub fn build_bytes(labels: &Vec<String>, sections: &Vec<Vec<Token>>) -> (r: Result<
    Vec<u8>,
    LinkError,
>)
    requires
        labels@.len() == sections@.len(),
        labels@.len() >= 1,
        JUMP_OFFSET + all_len(section_views(sections@), sections@.len() as int) <= u32::MAX,
    ensures
        match r {
            Ok(bytes) => link_spec(
                SectionsView { labels: label_views(labels@), tokens: section_views(sections@) },
            ) == Ok::<Seq<u8>, LinkErrorView>(bytes@),
            Err(e) => link_spec(
                SectionsView { labels: label_views(labels@), tokens: section_views(sections@) },
            ) == Err::<Seq<u8>, LinkErrorView>(e@),
        },
{
    let ghost sv = SectionsView {
        labels: label_views(labels@),
        tokens: section_views(sections@),
    };
    let n = sections.len();

    // Pass 1a: the data section's cells become bytes and address-map
    // entries, one cell per declaration, in order.
    let mut entries: Vec<(String, u32)> = Vec::new();
    let mut data_bytes: Vec<u8> = Vec::new();
    let sec0 = &sections[0];
    let m0 = sec0.len();
    let mut j: usize = 0;
    proof {
        assert(views_of(sec0@).subrange(0, 0) =~= Seq::<TokenView>::empty());
        assert(views_of(sec0@).subrange(0, m0 as int) =~= views_of(sec0@));
        assert(tokens_len(Seq::<TokenView>::empty()) == 0);
        assert(sv.tokens[0] == views_of(sec0@));
        lemma_tokens_len_nonneg(sv.tokens[0]);
        lemma_all_len_mono(sv.tokens, 1, n as int);
        assert(all_len(sv.tokens, 0) == 0);
        assert(all_len(sv.tokens, 1) == tokens_len(sv.tokens[0]));
        lemma_data_cells_bound(views_of(sec0@), m0 as int);
    }
    while j < m0
        invariant
            m0 == sec0@.len(),
            j <= m0,
            sv.tokens[0] == views_of(sec0@),
            tokens_len(sv.tokens[0]) + JUMP_OFFSET <= u32::MAX,
            data_bytes@.len() == data_cells(views_of(sec0@).subrange(0, j as int)).len(),
            data_bytes@.len() <= j,
            entry_views(entries@) == data_entries(data_cells(views_of(sec0@).subrange(0, j as int))),
            data_bytes@ == cells_bytes(data_cells(views_of(sec0@).subrange(0, j as int))),
            data_cells(views_of(sec0@).subrange(0, j as int)).len() <= tokens_len(
                views_of(sec0@).subrange(0, j as int),
            ),
            tokens_len(views_of(sec0@).subrange(0, j as int)) + tokens_len(
                views_of(sec0@).subrange(j as int, m0 as int),
            ) == tokens_len(sv.tokens[0]),
        decreases m0 - j,
    {
        let ghost pre = views_of(sec0@).subrange(0, j as int);
        let ghost pre2 = views_of(sec0@).subrange(0, j + 1);
        let ghost cells = data_cells(pre);
        proof {
            assert(pre2.drop_last() =~= pre);
            assert(pre2.last() == views_of(sec0@)[j as int]);
            lemma_tokens_len_split(views_of(sec0@), j as int, m0 as int);
            lemma_tokens_len_nonneg(views_of(sec0@).subrange(j + 1, m0 as int));
            lemma_tokens_len_nonneg(pre);
        }
        match &sec0[j] {
            Token::U8Data(name, value) => {
                let count = data_bytes.len();
                let address = JUMP_OFFSET + count as u32;
                let ghost c: (Seq<char>, u8) = (name@, *value);
                let ghost oe = entry_views(entries@);
                let ghost ob = data_bytes@;
                entries.push((name.clone(), address));
                data_bytes.push(*value);
                proof {
                    assert(data_cells(pre2) =~= cells.push(c));
                    assert(entry_views(entries@) =~= oe.push((name@, address)));
                    assert(data_entries(cells.push(c)) =~= oe.push((name@, address)));
                    assert(data_bytes@ =~= ob.push(*value));
                    assert(cells_bytes(cells.push(c)) =~= ob.push(*value));
                }
            },
            _ => {
                proof {
                    assert(data_cells(pre2) == cells);
                }
            },
        }
        j = j + 1;
    }
    proof {
        assert(views_of(sec0@).subrange(0, m0 as int) =~= views_of(sec0@));
    }

    // Pass 1b: each code section's label gets the cumulative byte offset
    // where its first instruction will land.
    let data_size = calc_byte_len(sec0);
    let mut base: u32 = JUMP_OFFSET + data_size;
    let mut i: usize = 1;
    proof {
        assert(entry_views(entries@) + code_entries_upto(sv, 1) =~= entry_views(entries@));
        assert(all_len(sv.tokens, 0) == 0);
        assert(all_len(sv.tokens, 1) == tokens_len(sv.tokens[0]));
        assert(base == JUMP_OFFSET + all_len(sv.tokens, 1));
    }
    while i < n
        invariant
            n == sections@.len(),
            n == labels@.len(),
            1 <= i <= n,
            sv.labels == label_views(labels@),
            sv.tokens == section_views(sections@),
            JUMP_OFFSET + all_len(sv.tokens, n as int) <= u32::MAX,
            base == JUMP_OFFSET + all_len(sv.tokens, i as int),
            entry_views(entries@) == data_entries(data_cells(sv.tokens[0])) + code_entries_upto(
                sv,
                i as int,
            ),
        decreases n - i,
    {
        proof {
            lemma_all_len_mono(sv.tokens, i + 1, n as int);
            lemma_all_len_mono(sv.tokens, 0, i as int);
            lemma_all_len_nonneg(sv.tokens, i as int);
            lemma_tokens_len_nonneg(sv.tokens[i as int]);
            assert(sv.tokens[i as int] == views_of(sections@[i as int]@));
        }
        let ghost before = entry_views(entries@);
        entries.push((labels[i].clone(), base));
        let size = calc_byte_len(&sections[i]);
        base = base + size;
        i = i + 1;
        proof {
            assert(code_entries_upto(sv, i as int) =~= code_entries_upto(sv, i - 1).push(
                (sv.labels[i - 1], (JUMP_OFFSET + all_len(sv.tokens, i - 1)) as u32),
            ));
            assert(entry_views(entries@) =~= before.push(
                (sv.labels[i - 1], (JUMP_OFFSET + all_len(sv.tokens, i - 1)) as u32),
            ));
        }
    }
    proof {
        assert(code_entries_upto(sv, n as int) =~= code_entries(sv));
        assert(entry_views(entries@) == addr_entries(sv));
    }
    let ghost ev = addr_entries(sv);

    // Pass 2: emit each code section, resolving labels as it goes.
    let mut code: Vec<u8> = Vec::new();
    let mut i: usize = 1;
    proof {
        assert(encode_sections_upto(sv.tokens, ev, 1) == Ok::<Seq<u8>, LinkErrorView>(
            Seq::empty(),
        ));
        assert(code@ =~= Seq::<u8>::empty());
    }
    while i < n
        invariant
            n == sections@.len(),
            n == labels@.len(),
            1 <= i <= n,
            sv.labels == label_views(labels@),
            sv.tokens == section_views(sections@),
            ev == addr_entries(sv),
            ev == entry_views(entries@),
            encode_sections_upto(sv.tokens, ev, i as int) == Ok::<Seq<u8>, LinkErrorView>(code@),
        decreases n - i,
    {
        let ghost pre = code@;
        let sec = &sections[i];
        let m = sec.len();
        let mut j: usize = 0;
        proof {
            assert(sv.tokens[i as int] == views_of(sec@));
            assert(views_of(sec@).subrange(0, 0) =~= Seq::<TokenView>::empty());
            assert(code@.subrange(pre.len() as int, code@.len() as int) =~= Seq::<u8>::empty());
        }
        while j < m
            invariant
                n == sections@.len(),
                n == labels@.len(),
                sv.labels == label_views(labels@),
                sv.labels.len() == sv.tokens.len(),
                1 <= i < n,
                m == sec@.len(),
                j <= m,
                sec@ == sections@[i as int]@,
                sv.tokens == section_views(sections@),
                sv.tokens[i as int] == views_of(sec@),
                ev == entry_views(entries@),
                ev == addr_entries(sv),
                encode_sections_upto(sv.tokens, ev, i as int) == Ok::<Seq<u8>, LinkErrorView>(
                    pre,
                ),
                pre.len() <= code@.len(),
                code@.subrange(0, pre.len() as int) == pre,
                encode_tokens(views_of(sec@).subrange(0, j as int), ev) == Ok::<
                    Seq<u8>,
                    LinkErrorView,
                >(code@.subrange(pre.len() as int, code@.len() as int)),
            decreases m - j,
        {
            let ghost tv = views_of(sec@)[j as int];
            let ghost seg = code@.subrange(pre.len() as int, code@.len() as int);
            let start = code.len();
            proof {
                assert(views_of(sec@).subrange(0, j + 1).drop_last() =~= views_of(
                    sec@,
                ).subrange(0, j as int));
                assert(views_of(sec@).subrange(0, j + 1).last() == tv);
                assert(start == pre.len() + seg.len());
            }
            match &sec[j] {
                Token::Nop => {
                    code.push(1);
                    proof {
                        assert(code@.subrange(start as int, code@.len() as int) =~= seq![1u8]);
                        assert(encode_token(tv, ev) == Ok::<Seq<u8>, LinkErrorView>(
                            code@.subrange(start as int, code@.len() as int),
                        ));
                    }
                },
                Token::Exit(value) => {
                    code.push(2);
                    code.push(*value);
                    proof {
                        assert(code@.subrange(start as int, code@.len() as int) =~= seq![2u8, *value]);
                        assert(encode_token(tv, ev) == Ok::<Seq<u8>, LinkErrorView>(
                            code@.subrange(start as int, code@.len() as int),
                        ));
                    }
                },
                Token::Add => {
                    code.push(3);
                    proof {
                        assert(code@.subrange(start as int, code@.len() as int) =~= seq![3u8]);
                        assert(encode_token(tv, ev) == Ok::<Seq<u8>, LinkErrorView>(
                            code@.subrange(start as int, code@.len() as int),
                        ));
                    }
                },
                Token::Subtract => {
                    code.push(4);
                    proof {
                        assert(code@.subrange(start as int, code@.len() as int) =~= seq![4u8]);
                        assert(encode_token(tv, ev) == Ok::<Seq<u8>, LinkErrorView>(
                            code@.subrange(start as int, code@.len() as int),
                        ));
                    }
                },
                Token::Multiply => {
                    code.push(5);
                    proof {
                        assert(code@.subrange(start as int, code@.len() as int) =~= seq![5u8]);
                        assert(encode_token(tv, ev) == Ok::<Seq<u8>, LinkErrorView>(
                            code@.subrange(start as int, code@.len() as int),
                        ));
                    }
                },
                Token::U8Data(_, _) => {
                    proof {
                        assert(code@.subrange(start as int, code@.len() as int) =~= Seq::<u8>::empty());
                        assert(encode_token(tv, ev) == Ok::<Seq<u8>, LinkErrorView>(
                            code@.subrange(start as int, code@.len() as int),
                        ));
                    }
                },
                Token::Ignore => {
                    proof {
                        assert(code@.subrange(start as int, code@.len() as int) =~= Seq::<u8>::empty());
                        assert(encode_token(tv, ev) == Ok::<Seq<u8>, LinkErrorView>(
                            code@.subrange(start as int, code@.len() as int),
                        ));
                    }
                },
                Token::LoadA(label) => {
                    match lookup_entry(&entries, label) {
                        Some(address) => {
                            code.push(6);
                            push_be(&mut code, address);
                            proof {
                                assert(code@.subrange(start as int, code@.len() as int)
                                    =~= seq![6u8] + be_bytes(address));
                                assert(encode_token(tv, ev) == Ok::<Seq<u8>, LinkErrorView>(
                                    code@.subrange(start as int, code@.len() as int),
                                ));
                            }
                        },
                        None => {
                            proof {
                                link_err_chain(sv, ev, i as int, j as int, pre, seg);
                            }
                            return Err(LinkError { label: label.clone() });
                        },
                    }
                },
                Token::LoadB(label) => {
                    match lookup_entry(&entries, label) {
                        Some(address) => {
                            code.push(7);
                            push_be(&mut code, address);
                            proof {
                                assert(code@.subrange(start as int, code@.len() as int)
                                    =~= seq![7u8] + be_bytes(address));
                                assert(encode_token(tv, ev) == Ok::<Seq<u8>, LinkErrorView>(
                                    code@.subrange(start as int, code@.len() as int),
                                ));
                            }
                        },
                        None => {
                            proof {
                                link_err_chain(sv, ev, i as int, j as int, pre, seg);
                            }
                            return Err(LinkError { label: label.clone() });
                        },
                    }
                },
                Token::LoadC(label) => {
                    match lookup_entry(&entries, label) {
                        Some(address) => {
                            code.push(8);
                            push_be(&mut code, address);
                            proof {
                                assert(code@.subrange(start as int, code@.len() as int)
                                    =~= seq![8u8] + be_bytes(address));
                                assert(encode_token(tv, ev) == Ok::<Seq<u8>, LinkErrorView>(
                                    code@.subrange(start as int, code@.len() as int),
                                ));
                            }
                        },
                        None => {
                            proof {
                                link_err_chain(sv, ev, i as int, j as int, pre, seg);
                            }
                            return Err(LinkError { label: label.clone() });
                        },
                    }
                },
                Token::StoreA(label) => {
                    match lookup_entry(&entries, label) {
                        Some(address) => {
                            code.push(9);
                            push_be(&mut code, address);
                            proof {
                                assert(code@.subrange(start as int, code@.len() as int)
                                    =~= seq![9u8] + be_bytes(address));
                                assert(encode_token(tv, ev) == Ok::<Seq<u8>, LinkErrorView>(
                                    code@.subrange(start as int, code@.len() as int),
                                ));
                            }
                        },
                        None => {
                            proof {
                                link_err_chain(sv, ev, i as int, j as int, pre, seg);
                            }
                            return Err(LinkError { label: label.clone() });
                        },
                    }
                },
                Token::StoreB(label) => {
                    match lookup_entry(&entries, label) {
                        Some(address) => {
                            code.push(10);
                            push_be(&mut code, address);
                            proof {
                                assert(code@.subrange(start as int, code@.len() as int)
                                    =~= seq![10u8] + be_bytes(address));
                                assert(encode_token(tv, ev) == Ok::<Seq<u8>, LinkErrorView>(
                                    code@.subrange(start as int, code@.len() as int),
                                ));
                            }
                        },
                        None => {
                            proof {
                                link_err_chain(sv, ev, i as int, j as int, pre, seg);
                            }
                            return Err(LinkError { label: label.clone() });
                        },
                    }
                },
                Token::StoreC(label) => {
                    match lookup_entry(&entries, label) {
                        Some(address) => {
                            code.push(11);
                            push_be(&mut code, address);
                            proof {
                                assert(code@.subrange(start as int, code@.len() as int)
                                    =~= seq![11u8] + be_bytes(address));
                                assert(encode_token(tv, ev) == Ok::<Seq<u8>, LinkErrorView>(
                                    code@.subrange(start as int, code@.len() as int),
                                ));
                            }
                        },
                        None => {
                            proof {
                                link_err_chain(sv, ev, i as int, j as int, pre, seg);
                            }
                            return Err(LinkError { label: label.clone() });
                        },
                    }
                },
                Token::Jump(label) => {
                    match lookup_entry(&entries, label) {
                        Some(address) => {
                            code.push(12);
                            push_be(&mut code, address);
                            proof {
                                assert(code@.subrange(start as int, code@.len() as int)
                                    =~= seq![12u8] + be_bytes(address));
                                assert(encode_token(tv, ev) == Ok::<Seq<u8>, LinkErrorView>(
                                    code@.subrange(start as int, code@.len() as int),
                                ));
                            }
                        },
                        None => {
                            proof {
                                link_err_chain(sv, ev, i as int, j as int, pre, seg);
                            }
                            return Err(LinkError { label: label.clone() });
                        },
                    }
                },
                Token::Jeq(label) => {
                    match lookup_entry(&entries, label) {
                        Some(address) => {
                            code.push(13);
                            push_be(&mut code, address);
                            proof {
                                assert(code@.subrange(start as int, code@.len() as int)
                                    =~= seq![13u8] + be_bytes(address));
                                assert(encode_token(tv, ev) == Ok::<Seq<u8>, LinkErrorView>(
                                    code@.subrange(start as int, code@.len() as int),
                                ));
                            }
                        },
                        None => {
                            proof {
                                link_err_chain(sv, ev, i as int, j as int, pre, seg);
                            }
                            return Err(LinkError { label: label.clone() });
                        },
                    }
                },
                Token::Jneq(label) => {
                    match lookup_entry(&entries, label) {
                        Some(address) => {
                            code.push(14);
                            push_be(&mut code, address);
                            proof {
                                assert(code@.subrange(start as int, code@.len() as int)
                                    =~= seq![14u8] + be_bytes(address));
                                assert(encode_token(tv, ev) == Ok::<Seq<u8>, LinkErrorView>(
                                    code@.subrange(start as int, code@.len() as int),
                                ));
                            }
                        },
                        None => {
                            proof {
                                link_err_chain(sv, ev, i as int, j as int, pre, seg);
                            }
                            return Err(LinkError { label: label.clone() });
                        },
                    }
                },
                Token::Jlt(label) => {
                    match lookup_entry(&entries, label) {
                        Some(address) => {
                            code.push(16);
                            push_be(&mut code, address);
                            proof {
                                assert(code@.subrange(start as int, code@.len() as int)
                                    =~= seq![16u8] + be_bytes(address));
                                assert(encode_token(tv, ev) == Ok::<Seq<u8>, LinkErrorView>(
                                    code@.subrange(start as int, code@.len() as int),
                                ));
                            }
                        },
                        None => {
                            proof {
                                link_err_chain(sv, ev, i as int, j as int, pre, seg);
                            }
                            return Err(LinkError { label: label.clone() });
                        },
                    }
                },
                Token::Jgt(label) => {
                    match lookup_entry(&entries, label) {
                        Some(address) => {
                            code.push(15);
                            push_be(&mut code, address);
                            proof {
                                assert(code@.subrange(start as int, code@.len() as int)
                                    =~= seq![15u8] + be_bytes(address));
                                assert(encode_token(tv, ev) == Ok::<Seq<u8>, LinkErrorView>(
                                    code@.subrange(start as int, code@.len() as int),
                                ));
                            }
                        },
                        None => {
                            proof {
                                link_err_chain(sv, ev, i as int, j as int, pre, seg);
                            }
                            return Err(LinkError { label: label.clone() });
                        },
                    }
                },
            }
            proof {
                assert(code@.subrange(0, pre.len() as int) =~= pre);
                assert(code@.subrange(pre.len() as int, code@.len() as int) =~= seg + code@.subrange(
                    start as int,
                    code@.len() as int,
                ));
            }
            j = j + 1;
        }
        proof {
            assert(views_of(sec@).subrange(0, m as int) =~= views_of(sec@));
            assert(encode_sections_upto(sv.tokens, ev, i + 1) == Ok::<Seq<u8>, LinkErrorView>(
                pre + code@.subrange(pre.len() as int, code@.len() as int),
            ));
            assert(pre + code@.subrange(pre.len() as int, code@.len() as int) =~= code@);
        }
        i = i + 1;
    }

    // Final image: leading jump, data bytes, code bytes.
    let mut image: Vec<u8> = Vec::new();
    image.push(12);
    push_be(&mut image, JUMP_OFFSET + data_size);
    let ghost head = image@;
    image.append(&mut data_bytes);
    image.append(&mut code);
    proof {
        assert(head =~= seq![12u8] + be_bytes((JUMP_OFFSET + tokens_len(sv.tokens[0])) as u32));
        assert(image@ =~= seq![12u8] + be_bytes((JUMP_OFFSET + tokens_len(sv.tokens[0])) as u32)
            + cells_bytes(data_cells(sv.tokens[0])) + encode_sections_upto(
            sv.tokens,
            ev,
            n as int,
        )->Ok_0);
    }
    Ok(image)
}

/// The code-label entries of the first `i` sections.
pub open spec fn code_entries_upto(sv: SectionsView, i: int) -> Seq<(Seq<char>, u32)> {
    Seq::new(
        (i - 1) as nat,
        |k: int| (sv.labels[k + 1], (JUMP_OFFSET + all_len(sv.tokens, k + 1)) as u32),
    )
}

/// A token list's byte count splits at any point.
proof fn lemma_tokens_len_split(ts: Seq<TokenView>, a: int, b: int)
    requires
        0 <= a < b <= ts.len(),
    ensures
        tokens_len(ts.subrange(0, a)) + token_len(ts[a]) + tokens_len(ts.subrange(a + 1, b))
            == tokens_len(ts.subrange(0, a + 1)) + tokens_len(ts.subrange(a + 1, b)),
        tokens_len(ts.subrange(a, b)) == token_len(ts[a]) + tokens_len(ts.subrange(a + 1, b)),
{
    let p2 = ts.subrange(0, a + 1);
    assert(p2.drop_last() =~= ts.subrange(0, a));
    lemma_tokens_len_push(ts.subrange(0, a), ts[a]);
    assert(ts.subrange(0, a).push(ts[a]) =~= p2);
    let s = ts.subrange(a, b);
    assert(s[0] == ts[a]);
    assert(s.subrange(1, s.len() as int) =~= ts.subrange(a + 1, b));
}

/// A declaration list never outgrows its section's byte count.
proof fn lemma_data_cells_bound(ts: Seq<TokenView>, i: int)
    requires
        0 <= i <= ts.len(),
    ensures
        data_cells(ts.subrange(0, i)).len() <= tokens_len(ts.subrange(0, i)),
    decreases i,
{
    if i == 0 {
        assert(ts.subrange(0, 0) =~= Seq::<TokenView>::empty());
    } else {
        lemma_data_cells_bound(ts, i - 1);
        let p = ts.subrange(0, i);
        assert(p.drop_last() =~= ts.subrange(0, i - 1));
        lemma_tokens_len_push(ts.subrange(0, i - 1), ts[i - 1]);
        assert(ts.subrange(0, i - 1).push(ts[i - 1]) =~= p);
    }
}

/// An unresolved label at token `j` of code section `i` makes the whole
/// link fail with exactly that error.
proof fn link_err_chain(
    sv: SectionsView,
    ev: Seq<(Seq<char>, u32)>,
    i: int,
    j: int,
    pre: Seq<u8>,
    seg: Seq<u8>,
)
    requires
        sv.labels.len() == sv.tokens.len(),
        1 <= i < sv.tokens.len(),
        0 <= j < sv.tokens[i].len(),
        ev == addr_entries(sv),
        encode_sections_upto(sv.tokens, ev, i) == Ok::<Seq<u8>, LinkErrorView>(pre),
        encode_tokens(sv.tokens[i].subrange(0, j), ev) == Ok::<Seq<u8>, LinkErrorView>(seg),
        encode_token(sv.tokens[i][j], ev) is Err,
    ensures
        link_spec(sv) == Err::<Seq<u8>, LinkErrorView>(encode_token(sv.tokens[i][j], ev)->Err_0),
{
    lemma_encode_tokens_first_err(sv.tokens[i], ev, j);
    lemma_encode_sections_first_err(sv.tokens, ev, i, sv.tokens.len() as int);
}

/// The first failing token decides a token list's error.
proof fn lemma_encode_tokens_first_err(ts: Seq<TokenView>, ev: Seq<(Seq<char>, u32)>, j: int)
    requires
        0 <= j < ts.len(),
        encode_tokens(ts.subrange(0, j), ev) is Ok,
        encode_token(ts[j], ev) is Err,
    ensures
        encode_tokens(ts, ev) == encode_token(ts[j], ev),
    decreases ts.len(),
{
    if j == ts.len() - 1 {
        assert(ts.drop_last() =~= ts.subrange(0, j));
        assert(ts.last() == ts[j]);
    } else {
        assert(ts.drop_last().subrange(0, j) =~= ts.subrange(0, j));
        assert(ts.drop_last()[j] == ts[j]);
        lemma_encode_tokens_first_err(ts.drop_last(), ev, j);
    }
}

/// The first failing section decides the whole code region's error.
proof fn lemma_encode_sections_first_err(
    sections: Seq<Seq<TokenView>>,
    ev: Seq<(Seq<char>, u32)>,
    i: int,
    n: int,
)
    requires
        1 <= i < n,
        encode_sections_upto(sections, ev, i) is Ok,
        encode_tokens(sections[i], ev) is Err,
    ensures
        encode_sections_upto(sections, ev, n) == encode_tokens(sections[i], ev),
    decreases n,
{
    if n == i + 1 {
    } else {
        lemma_encode_sections_first_err(sections, ev, i, n - 1);
    }
}

/// Assemble a whole source program: split it into sections, lay them out,
/// and link, exactly as [`assemble_spec`] says.  Assembling the same lines
/// always yields the same answer, so assembly is idempotent.
pub fn assemble(lines: &Vec<String>) -> (r: Result<Vec<u8>, AsmError>)
    requires
        JUMP_OFFSET + 5 * lines@.len() <= u32::MAX,
    ensures
        match r {
            Ok(bytes) => assemble_spec(line_views(lines@)) == Ok::<Seq<u8>, AsmErrorView>(
                bytes@,
            ),
            Err(e) => assemble_spec(line_views(lines@)) == Err::<Seq<u8>, AsmErrorView>(e@),
        },
{
    let (labels, sections) = match get_sections(lines) {
        Ok(p) => p,
        Err(e) => {
            return Err(e);
        },
    };
    proof {
        lemma_all_len_nonneg(section_views(sections@), sections@.len() as int);
    }
    match build_bytes(&labels, &sections) {
        Ok(bytes) => Ok(bytes),
        Err(e) => Err(AsmError::Link(e)),
    }
}

/// Assembly is deterministic, hence idempotent: two assemblies of the same
/// source lines yield the same answer, so a valid program assembles to a
/// byte-identical image every time.
pub proof fn lemma_assemble_idempotent(
    lines: Seq<Seq<char>>,
    r1: Result<Seq<u8>, AsmErrorView>,
    r2: Result<Seq<u8>, AsmErrorView>,
)
    requires
        r1 == assemble_spec(lines),
        r2 == assemble_spec(lines),
    ensures
        r1 == r2,
{
}

/// A lookup lands on the first entry that carries the name.
proof fn lemma_lookup_first_match(entries: Seq<(Seq<char>, u32)>, name: Seq<char>, j: int)
    requires
        0 <= j < entries.len(),
        entries[j].0 == name,
        forall|k: int| 0 <= k < j ==> (#[trigger] entries[k]).0 != name,
    ensures
        lookup_addr(entries, name) == Some(entries[j].1),
    decreases j,
{
    if j > 0 {
        let rest = entries.subrange(1, entries.len() as int);
        assert(rest[j - 1] == entries[j]);
        assert forall|k: int| 0 <= k < j - 1 implies (#[trigger] rest[k]).0 != name by {
            assert(rest[k] == entries[k + 1]);
        }
        lemma_lookup_first_match(rest, name, j - 1);
    }
}

/// Label resolution for the data section: when labels are unique, the
/// label of the `j`-th declared cell resolves to the leading jump's width
/// plus its declaration index.
pub proof fn lemma_label_resolution(sv: SectionsView, j: int)
    requires
        sv.labels.len() == sv.tokens.len() >= 1,
        0 <= j < data_cells(sv.tokens[0]).len(),
        forall|k1: int, k2: int|
            0 <= k1 < k2 < data_cells(sv.tokens[0]).len() ==> (#[trigger] data_cells(
                sv.tokens[0],
            )[k1]).0 != (#[trigger] data_cells(sv.tokens[0])[k2]).0,
    ensures
        lookup_addr(addr_entries(sv), data_cells(sv.tokens[0])[j].0) == Some(
            (JUMP_OFFSET + j) as u32,
        ),
{
    let cells = data_cells(sv.tokens[0]);
    let entries = addr_entries(sv);
    assert(entries[j] == (cells[j].0, (JUMP_OFFSET + j) as u32));
    assert forall|k: int| 0 <= k < j implies (#[trigger] entries[k]).0 != cells[j].0 by {
        assert(entries[k] == (cells[k].0, (JUMP_OFFSET + k) as u32));
        assert(cells[k].0 != cells[j].0);
    }
    lemma_lookup_first_match(entries, cells[j].0, j);
}

/// Label resolution for code: when its name clashes with no data label,
/// the first code section's label resolves to the byte just past the
/// leading jump and the data section.
pub proof fn lemma_first_code_address(sv: SectionsView)
    requires
        sv.labels.len() == sv.tokens.len() >= 2,
        forall|k: int|
            0 <= k < data_cells(sv.tokens[0]).len() ==> (#[trigger] data_cells(
                sv.tokens[0],
            )[k]).0 != sv.labels[1],
    ensures
        lookup_addr(addr_entries(sv), sv.labels[1]) == Some(
            (JUMP_OFFSET + tokens_len(sv.tokens[0])) as u32,
        ),
{
    let cells = data_cells(sv.tokens[0]);
    let entries = addr_entries(sv);
    let j = cells.len() as int;
    assert(code_entries(sv)[0] == (sv.labels[1], (JUMP_OFFSET + all_len(sv.tokens, 1)) as u32));
    assert(entries[j] == (sv.labels[1], (JUMP_OFFSET + all_len(sv.tokens, 1)) as u32));
    assert(all_len(sv.tokens, 0) == 0);
    assert(all_len(sv.tokens, 1) == tokens_len(sv.tokens[0]));
    assert forall|k: int| 0 <= k < j implies (#[trigger] entries[k]).0 != sv.labels[1] by {
        assert(entries[k] == (cells[k].0, (JUMP_OFFSET + k) as u32));
    }
    lemma_lookup_first_match(entries, sv.labels[1], j);
}

/// A token that encodes is one whose reference, if any, resolves; a token
/// that fails names its own unresolved label.
proof fn lemma_encode_token_cases(t: TokenView, ev: Seq<(Seq<char>, u32)>)
    ensures
        encode_token(t, ev) is Ok <==> (refs_of(t) is None || lookup_addr(
            ev,
            refs_of(t)->Some_0,
        ) is Some),
        encode_token(t, ev) is Err ==> refs_of(t) == Some(encode_token(t, ev)->Err_0.label)
            && lookup_addr(ev, encode_token(t, ev)->Err_0.label) is None,
{
}

/// Every token of a list that encodes encodes on its own.
proof fn lemma_encode_tokens_all_ok(ts: Seq<TokenView>, ev: Seq<(Seq<char>, u32)>)
    requires
        encode_tokens(ts, ev) is Ok,
    ensures
        forall|j: int| 0 <= j < ts.len() ==> encode_token(#[trigger] ts[j], ev) is Ok,
    decreases ts.len(),
{
    if ts.len() > 0 {
        lemma_encode_tokens_all_ok(ts.drop_last(), ev);
        assert forall|j: int| 0 <= j < ts.len() implies encode_token(
            #[trigger] ts[j],
            ev,
        ) is Ok by {
            if j < ts.len() - 1 {
                assert(ts.drop_last()[j] == ts[j]);
            } else {
                assert(ts[j] == ts.last());
            }
        }
    }
}

/// Every section of a code region that encodes encodes on its own.
proof fn lemma_encode_sections_all_ok(
    sections: Seq<Seq<TokenView>>,
    ev: Seq<(Seq<char>, u32)>,
    n: int,
)
    requires
        encode_sections_upto(sections, ev, n) is Ok,
    ensures
        forall|i: int| 1 <= i < n ==> encode_tokens(#[trigger] sections[i], ev) is Ok,
    decreases n,
{
    if n > 1 {
        lemma_encode_sections_all_ok(sections, ev, n - 1);
    }
}

/// A failing token list owes its error to some token whose label does not
/// resolve.
proof fn lemma_encode_tokens_err_witness(ts: Seq<TokenView>, ev: Seq<(Seq<char>, u32)>)
    requires
        encode_tokens(ts, ev) is Err,
    ensures
        lookup_addr(ev, encode_tokens(ts, ev)->Err_0.label) is None,
        exists|j: int|
            0 <= j < ts.len() && refs_of(#[trigger] ts[j]) == Some(
                encode_tokens(ts, ev)->Err_0.label,
            ),
    decreases ts.len(),
{
    let le = encode_tokens(ts, ev)->Err_0;
    if encode_tokens(ts.drop_last(), ev) is Err {
        lemma_encode_tokens_err_witness(ts.drop_last(), ev);
        let j = choose|j: int|
            0 <= j < ts.drop_last().len() && refs_of(#[trigger] ts.drop_last()[j]) == Some(
                le.label,
            );
        assert(ts[j] == ts.drop_last()[j]);
        assert(refs_of(ts[j]) == Some(le.label));
    } else {
        lemma_encode_token_cases(ts.last(), ev);
        assert(ts[ts.len() - 1] == ts.last());
        assert(refs_of(ts[ts.len() - 1]) == Some(le.label));
    }
}

/// A failing code region owes its error to some failing section.
proof fn lemma_encode_sections_err_witness(
    sections: Seq<Seq<TokenView>>,
    ev: Seq<(Seq<char>, u32)>,
    n: int,
)
    requires
        encode_sections_upto(sections, ev, n) is Err,
    ensures
        exists|i: int|
            1 <= i < n && encode_tokens(#[trigger] sections[i], ev) == Err::<
                Seq<u8>,
                LinkErrorView,
            >(encode_sections_upto(sections, ev, n)->Err_0),
    decreases n,
{
    let le = encode_sections_upto(sections, ev, n)->Err_0;
    if encode_sections_upto(sections, ev, n - 1) is Err {
        lemma_encode_sections_err_witness(sections, ev, n - 1);
        let i = choose|i: int|
            1 <= i < n - 1 && encode_tokens(#[trigger] sections[i], ev) == Err::<
                Seq<u8>,
                LinkErrorView,
            >(le);
        assert(encode_tokens(sections[i], ev) == Err::<Seq<u8>, LinkErrorView>(le));
    } else {
        assert(encode_tokens(sections[n - 1], ev) == Err::<Seq<u8>, LinkErrorView>(le));
    }
}

/// A link error names an unresolved label that some code token really
/// references, and a link that succeeds resolved every referenced label:
/// an unresolved reference always fails assembly and is never silently
/// encoded.
pub proof fn lemma_link_error_iff(sv: SectionsView)
    requires
        sv.labels.len() == sv.tokens.len() >= 1,
    ensures
        match link_spec(sv) {
            Ok(_) => forall|i: int, j: int|
                1 <= i < sv.tokens.len() && 0 <= j < sv.tokens[i].len() && refs_of(
                    #[trigger] sv.tokens[i][j],
                ) is Some ==> lookup_addr(addr_entries(sv), refs_of(sv.tokens[i][j])->Some_0)
                    is Some,
            Err(le) => lookup_addr(addr_entries(sv), le.label) is None && exists|i: int, j: int|
                1 <= i < sv.tokens.len() && 0 <= j < sv.tokens[i].len() && refs_of(
                    #[trigger] sv.tokens[i][j],
                ) == Some(le.label),
        },
{
    let ev = addr_entries(sv);
    let n = sv.tokens.len() as int;
    match encode_sections_upto(sv.tokens, ev, n) {
        Ok(_) => {
            lemma_encode_sections_all_ok(sv.tokens, ev, n);
            assert forall|i: int, j: int|
                1 <= i < n && 0 <= j < sv.tokens[i].len() && refs_of(
                    #[trigger] sv.tokens[i][j],
                ) is Some implies lookup_addr(ev, refs_of(sv.tokens[i][j])->Some_0) is Some by {
                lemma_encode_tokens_all_ok(sv.tokens[i], ev);
                lemma_encode_token_cases(sv.tokens[i][j], ev);
            }
        },
        Err(le) => {
            lemma_encode_sections_err_witness(sv.tokens, ev, n);
            let i = choose|i: int|
                1 <= i < n && encode_tokens(#[trigger] sv.tokens[i], ev) == Err::<
                    Seq<u8>,
                    LinkErrorView,
                >(le);
            lemma_encode_tokens_err_witness(sv.tokens[i], ev);
            let j = choose|j: int|
                0 <= j < sv.tokens[i].len() && refs_of(#[trigger] sv.tokens[i][j]) == Some(
                    le.label,
                );
            assert(refs_of(sv.tokens[i][j]) == Some(le.label));
        },
    }
}

/// The engine reads back exactly the address the linker wrote: decoding
/// four big-endian bytes inverts encoding them.
pub proof fn lemma_be_round_trip(v: u32)
    ensures
        crate::cpu::be_val(be_bytes(v)[0], be_bytes(v)[1], be_bytes(v)[2], be_bytes(v)[3]) == v,
{
    assert(((v / 0x100_0000) as u8) * 0x100_0000 + (((v / 0x1_0000) % 0x100) as u8) * 0x1_0000 + ((
    (v / 0x100) % 0x100) as u8) * 0x100 + ((v % 0x100) as u8) == v) by (bit_vector);
}

/// A linked image starts with a jump that the engine decodes to the first
/// byte after the leading jump and the data section: execution begins at
/// the code region.
pub proof fn lemma_image_starts_with_jump(sv: SectionsView)
    requires
        sv.labels.len() == sv.tokens.len() >= 1,
        0 <= JUMP_OFFSET + tokens_len(sv.tokens[0]) <= u32::MAX,
        link_spec(sv) is Ok,
    ensures
        link_spec(sv)->Ok_0[0] == crate::opcode::opcode_value(crate::opcode::OpCode::Jump),
        crate::cpu::be_val(
            link_spec(sv)->Ok_0[1],
            link_spec(sv)->Ok_0[2],
            link_spec(sv)->Ok_0[3],
            link_spec(sv)->Ok_0[4],
        ) == JUMP_OFFSET + tokens_len(sv.tokens[0]),
{
    let image = link_spec(sv)->Ok_0;
    let target = (JUMP_OFFSET + tokens_len(sv.tokens[0])) as u32;
    assert(image[0] == 12);
    assert(image[1] == be_bytes(target)[0]);
    assert(image[2] == be_bytes(target)[1]);
    assert(image[3] == be_bytes(target)[2]);
    assert(image[4] == be_bytes(target)[3]);
    lemma_be_round_trip(target);
}

} // verus!
