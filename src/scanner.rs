use vstd::prelude::*;

verus! {

/// Why scanning stopped; `line` counts newlines before the offending place, from 0.
#[derive(Debug, Clone, Copy, PartialEq, Eq, Structural)]
pub enum LexingError {
    UnexpectedCharacter { line: i32 },
    UnterminatedString { line: i32 },
    /// A decimal literal whose value does not fit in an `i64`.
    IntegerTooLarge { line: i32 },
}

pub open spec fn is_digit(c: char) -> bool {
    '0' <= c && c <= '9'
}

pub open spec fn is_letter(c: char) -> bool {
    ('a' <= c && c <= 'z') || ('A' <= c && c <= 'Z')
}

/// Whether `char::is_alphanumeric` holds of `c` (Unicode letters and numbers).
pub uninterp spec fn alnum_of(c: char) -> bool;

/// Relies on `char::is_alphanumeric`: its answer depends on the character alone,
/// and on ASCII it holds exactly of the letters and the digits.
#[verifier::external_body]
fn is_alnum(c: char) -> (r: bool)
    ensures
        r == alnum_of(c),
        (c as u32) < 128 ==> (r == (is_letter(c) || is_digit(c))),
{
    c.is_alphanumeric()
}

/// Relies on `str::chars`: the characters of the string, in order.
#[verifier::external_body]
fn chars_of(s: &str) -> (r: Vec<char>)
    ensures
        r@ == s@,
{
    s.chars().collect()
}

/// Relies on `String: FromIterator<&char>`: the string of those characters, in order.
#[verifier::external_body]
fn string_of(v: &Vec<char>) -> (r: String)
    ensures
        r@ == v@,
{
    v.iter().collect()
}

#[derive(Debug, Clone, PartialEq, Eq)]
pub enum TokenType {
    // Single-character tokens
    LeftParen,
    RightParen,
    LeftBrace,
    RightBrace,
    Comma,
    Colon,
    Equal,
    // Literals
    Function { name: String },
    Label { name: String },
    Register { name: String },
    String { content: String },
    IntLiteral { value: i64 },
    // Types
    I32,
    // Keywords
    Add,
    Sub,
    Mul,
    Div,
    Define,
    Return,
    Call,
    Exit,
    Jmp,
    Branch,
    ICmp,
    // Comparison kinds
    LE,
    EOF,
}

/// A token type with its text seen as a sequence of characters.
pub enum TokenView {
    /// A token that carries no text (punctuation, keywords, types, end of input).
    Plain(TokenType),
    Function(Seq<char>),
    Label(Seq<char>),
    Register(Seq<char>),
    Str(Seq<char>),
    Int(int),
}

impl View for TokenType {
    type V = TokenView;

    open spec fn view(&self) -> TokenView {
        match self {
            TokenType::Function { name } => TokenView::Function(name@),
            TokenType::Label { name } => TokenView::Label(name@),
            TokenType::Register { name } => TokenView::Register(name@),
            TokenType::String { content } => TokenView::Str(content@),
            TokenType::IntLiteral { value } => TokenView::Int(*value as int),
            _ => TokenView::Plain(*self),
        }
    }
}

#[derive(Debug, Clone)]
pub struct Token {
    pub token_type: TokenType,
    pub line: i32,
}

impl View for Token {
    type V = (TokenView, int);

    open spec fn view(&self) -> (TokenView, int) {
        (self.token_type@, self.line as int)
    }
}

pub open spec fn views(ts: Seq<Token>) -> Seq<(TokenView, int)> {
    ts.map_values(|t: Token| t@)
}

/// Index just past the run of alphanumeric characters that starts at `i`.
pub open spec fn ident_end(s: Seq<char>, i: int) -> int
    decreases s.len() - i,
{
    if 0 <= i < s.len() && alnum_of(s[i]) {
        ident_end(s, i + 1)
    } else {
        i
    }
}

/// Index just past the run of decimal digits that starts at `i`.
pub open spec fn digits_end(s: Seq<char>, i: int) -> int
    decreases s.len() - i,
{
    if 0 <= i < s.len() && is_digit(s[i]) {
        digits_end(s, i + 1)
    } else {
        i
    }
}

/// Index of the first `"` at or after `i`, or the length if there is none.
pub open spec fn quote_at(s: Seq<char>, i: int) -> int
    decreases s.len() - i,
{
    if 0 <= i < s.len() && s[i] != '"' {
        quote_at(s, i + 1)
    } else {
        i
    }
}

pub open spec fn newlines(s: Seq<char>) -> int
    decreases s.len(),
{
    if s.len() == 0 {
        0
    } else {
        newlines(s.drop_last()) + if s.last() == '\n' { 1int } else { 0 }
    }
}

/// The number that a run of decimal digits writes.
pub open spec fn decimal(s: Seq<char>) -> int
    decreases s.len(),
{
    if s.len() == 0 {
        0
    } else {
        decimal(s.drop_last()) * 10 + (s.last() as int - '0' as int)
    }
}

/// The token type that a reserved word stands for, if `w` is one.
pub open spec fn keyword(w: Seq<char>) -> Option<TokenType> {
    if w == seq!['i', '3', '2'] {
        Some(TokenType::I32)
    } else if w == seq!['a', 'd', 'd'] {
        Some(TokenType::Add)
    } else if w == seq!['s', 'u', 'b'] {
        Some(TokenType::Sub)
    } else if w == seq!['m', 'u', 'l'] {
        Some(TokenType::Mul)
    } else if w == seq!['d', 'i', 'v'] {
        Some(TokenType::Div)
    } else if w == seq!['e', 'x', 'i', 't'] {
        Some(TokenType::Exit)
    } else if w == seq!['d', 'e', 'f', 'i', 'n', 'e'] {
        Some(TokenType::Define)
    } else if w == seq!['r', 'e', 't'] {
        Some(TokenType::Return)
    } else if w == seq!['c', 'a', 'l', 'l'] {
        Some(TokenType::Call)
    } else if w == seq!['j', 'm', 'p'] {
        Some(TokenType::Jmp)
    } else if w == seq!['c', 'm', 'p'] {
        Some(TokenType::ICmp)
    } else if w == seq!['b', 'r', 'a', 'n', 'c', 'h'] {
        Some(TokenType::Branch)
    } else if w == seq!['l', 'e'] {
        Some(TokenType::LE)
    } else {
        None
    }
}

/// The token type of a character that is a token by itself.
pub open spec fn punctuation(c: char) -> Option<TokenType> {
    if c == '(' {
        Some(TokenType::LeftParen)
    } else if c == ')' {
        Some(TokenType::RightParen)
    } else if c == '{' {
        Some(TokenType::LeftBrace)
    } else if c == '}' {
        Some(TokenType::RightBrace)
    } else if c == ',' {
        Some(TokenType::Comma)
    } else if c == ':' {
        Some(TokenType::Colon)
    } else if c == '=' {
        Some(TokenType::Equal)
    } else {
        None
    }
}

/// What one scanning step does at position `i` on line `line`.
pub enum Step {
    /// The input is used up.
    Done,
    /// The step emits `tokens` and goes on at `next` on line `line`.
    Emit { tokens: Seq<(TokenView, int)>, next: int, line: int },
    /// The step fails with `error`, leaving the scanner at `next` on line `line`.
    Fail { error: LexingError, next: int, line: int },
}

pub open spec fn step(s: Seq<char>, i: int, line: int) -> Step {
    if i < 0 || i >= s.len() {
        Step::Done
    } else {
        let c = s[i];
        if punctuation(c) is Some {
            Step::Emit {
                tokens: seq![(TokenView::Plain(punctuation(c)->0), line)],
                next: i + 1,
                line,
            }
        } else if c == '"' {
            let e = quote_at(s, i + 1);
            if e >= s.len() {
                Step::Fail {
                    error: LexingError::UnterminatedString { line: line as i32 },
                    next: s.len() as int,
                    line: line + newlines(s.subrange(i + 1, s.len() as int)),
                }
            } else {
                let body = s.subrange(i + 1, e);
                let l = line + newlines(body);
                Step::Emit { tokens: seq![(TokenView::Str(body), l)], next: e + 1, line: l }
            }
        } else if c == '%' {
            let e = ident_end(s, i + 1);
            Step::Emit {
                tokens: seq![(TokenView::Register(s.subrange(i, e)), line)],
                next: e,
                line,
            }
        } else if c == '@' {
            let e = ident_end(s, i + 1);
            let name = s.subrange(i + 1, e);
            Step::Emit {
                tokens: seq![
                    (TokenView::Function(name), line),
                    (TokenView::Label(name), line),
                    (TokenView::Plain(TokenType::Colon), line),
                ],
                next: e,
                line,
            }
        } else if c == ' ' || c == '\r' || c == '\t' {
            Step::Emit { tokens: seq![], next: i + 1, line }
        } else if c == '\n' {
            Step::Emit { tokens: seq![], next: i + 1, line: line + 1 }
        } else if is_digit(c) {
            let e = digits_end(s, i);
            let v = decimal(s.subrange(i, e));
            if v > i64::MAX {
                Step::Fail { error: LexingError::IntegerTooLarge { line: line as i32 }, next: e, line }
            } else {
                Step::Emit { tokens: seq![(TokenView::Int(v), line)], next: e, line }
            }
        } else if is_letter(c) {
            let e = ident_end(s, i + 1);
            let w = s.subrange(i, e);
            let t = match keyword(w) {
                Some(k) => TokenView::Plain(k),
                None => TokenView::Label(w),
            };
            Step::Emit { tokens: seq![(t, line)], next: e, line }
        } else {
            Step::Fail { error: LexingError::UnexpectedCharacter { line: line as i32 }, next: i, line }
        }
    }
}

/// The tokens of `s` from position `i` on, ending with the end-of-input token,
/// or the first error met.
pub open spec fn lex(s: Seq<char>, i: int, line: int) -> Result<Seq<(TokenView, int)>, LexingError>
    decreases s.len() - i,
{
    match step(s, i, line) {
        Step::Done => Ok(seq![(TokenView::Plain(TokenType::EOF), line)]),
        Step::Fail { error, .. } => Err(error),
        Step::Emit { tokens, next, line: l } => {
            if i < next <= s.len() {
                match lex(s, next, l) {
                    Ok(rest) => Ok(tokens + rest),
                    Err(e) => Err(e),
                }
            } else {
                Ok(tokens)
            }
        },
    }
}

proof fn lemma_ident_end(s: Seq<char>, i: int)
    requires
        0 <= i <= s.len(),
    ensures
        i <= ident_end(s, i) <= s.len(),
    decreases s.len() - i,
{
    if i < s.len() && alnum_of(s[i]) {
        lemma_ident_end(s, i + 1);
    }
}

proof fn lemma_digits_end(s: Seq<char>, i: int)
    requires
        0 <= i <= s.len(),
    ensures
        i <= digits_end(s, i) <= s.len(),
        forall|k: int| i <= k < digits_end(s, i) ==> is_digit(#[trigger] s[k]),
    decreases s.len() - i,
{
    if i < s.len() && is_digit(s[i]) {
        lemma_digits_end(s, i + 1);
    }
}

proof fn lemma_quote_at(s: Seq<char>, i: int)
    requires
        0 <= i <= s.len(),
    ensures
        i <= quote_at(s, i) <= s.len(),
        quote_at(s, i) < s.len() ==> s[quote_at(s, i)] == '"',
    decreases s.len() - i,
{
    if i < s.len() && s[i] != '"' {
        lemma_quote_at(s, i + 1);
    }
}

proof fn lemma_newlines(s: Seq<char>)
    ensures
        0 <= newlines(s) <= s.len(),
    decreases s.len(),
{
    if s.len() > 0 {
        lemma_newlines(s.drop_last());
    }
}

proof fn lemma_newlines_push(s: Seq<char>, i: int, j: int)
    requires
        0 <= i <= j < s.len(),
    ensures
        newlines(s.subrange(i, j + 1)) == newlines(s.subrange(i, j)) + if s[j] == '\n' { 1int } else { 0 },
{
    assert(s.subrange(i, j + 1).drop_last() =~= s.subrange(i, j));
}

proof fn lemma_decimal_nonneg(s: Seq<char>)
    requires
        forall|k: int| 0 <= k < s.len() ==> is_digit(#[trigger] s[k]),
    ensures
        decimal(s) >= 0,
    decreases s.len(),
{
    if s.len() > 0 {
        lemma_decimal_nonneg(s.drop_last());
    }
}

/// A step that emits goes forward, and moves the line by at most the distance.
proof fn lemma_step(s: Seq<char>, i: int, line: int)
    requires
        0 <= i,
    ensures
        step(s, i, line) matches Step::Emit { tokens, next, line: l } ==> i < next <= s.len()
            && line <= l <= line + (next - i),
        step(s, i, line) is Done <==> i >= s.len(),
{
    if 0 <= i < s.len() {
        lemma_ident_end(s, i + 1);
        lemma_digits_end(s, i);
        if is_digit(s[i]) {
            lemma_digits_end(s, i + 1);
            assert(digits_end(s, i) == digits_end(s, i + 1));
        }
        lemma_quote_at(s, i + 1);
        let e = quote_at(s, i + 1);
        if e < s.len() {
            lemma_newlines(s.subrange(i + 1, e));
        }
    }
}

/// How a scanning step at position `i` on line `line` relates the tokens
/// before and after it, the new position and line, and what it returned.
pub open spec fn took_step(
    s: Seq<char>,
    i: int,
    line: int,
    before: Seq<Token>,
    after: Seq<Token>,
    i2: int,
    line2: int,
    r: Result<bool, LexingError>,
) -> bool {
    match step(s, i, line) {
        Step::Done => r == Ok::<bool, LexingError>(false) && after == before && i2 == i && line2
            == line,
        Step::Emit { tokens, next, line: l } => r == Ok::<bool, LexingError>(true) && views(after)
            == views(before) + tokens && i2 == next && line2 == l,
        Step::Fail { error, next, line: l } => r == Err::<bool, LexingError>(error) && after == before
            && i2 == next && line2 == l,
    }
}

fn punctuation_of(c: char) -> (r: Option<TokenType>)
    ensures
        r == punctuation(c),
{
    if c == '(' {
        Some(TokenType::LeftParen)
    } else if c == ')' {
        Some(TokenType::RightParen)
    } else if c == '{' {
        Some(TokenType::LeftBrace)
    } else if c == '}' {
        Some(TokenType::RightBrace)
    } else if c == ',' {
        Some(TokenType::Comma)
    } else if c == ':' {
        Some(TokenType::Colon)
    } else if c == '=' {
        Some(TokenType::Equal)
    } else {
        None
    }
}

fn is_word(w: &Vec<char>, k: &[char]) -> (r: bool)
    ensures
        r == (w@ == k@),
{
    if w.len() != k.len() {
        return false;
    }
    let mut i: usize = 0;
    while i < w.len()
        invariant
            w@.len() == k@.len(),
            0 <= i <= w@.len(),
            forall|j: int| 0 <= j < i ==> w@[j] == k@[j],
        decreases w@.len() - i,
    {
        if w[i] != k[i] {
            return false;
        }
        i += 1;
    }
    assert(w@ =~= k@);
    true
}

fn keyword_of(w: &Vec<char>) -> (r: Option<TokenType>)
    ensures
        r == keyword(w@),
{
    let k_i32 = ['i', '3', '2'];
    let k_add = ['a', 'd', 'd'];
    let k_sub = ['s', 'u', 'b'];
    let k_mul = ['m', 'u', 'l'];
    let k_div = ['d', 'i', 'v'];
    let k_exit = ['e', 'x', 'i', 't'];
    let k_define = ['d', 'e', 'f', 'i', 'n', 'e'];
    let k_ret = ['r', 'e', 't'];
    let k_call = ['c', 'a', 'l', 'l'];
    let k_jmp = ['j', 'm', 'p'];
    let k_cmp = ['c', 'm', 'p'];
    let k_branch = ['b', 'r', 'a', 'n', 'c', 'h'];
    let k_le = ['l', 'e'];
    assert(k_i32@ =~= seq!['i', '3', '2']);
    assert(k_add@ =~= seq!['a', 'd', 'd']);
    assert(k_sub@ =~= seq!['s', 'u', 'b']);
    assert(k_mul@ =~= seq!['m', 'u', 'l']);
    assert(k_div@ =~= seq!['d', 'i', 'v']);
    assert(k_exit@ =~= seq!['e', 'x', 'i', 't']);
    assert(k_define@ =~= seq!['d', 'e', 'f', 'i', 'n', 'e']);
    assert(k_ret@ =~= seq!['r', 'e', 't']);
    assert(k_call@ =~= seq!['c', 'a', 'l', 'l']);
    assert(k_jmp@ =~= seq!['j', 'm', 'p']);
    assert(k_cmp@ =~= seq!['c', 'm', 'p']);
    assert(k_branch@ =~= seq!['b', 'r', 'a', 'n', 'c', 'h']);
    assert(k_le@ =~= seq!['l', 'e']);
    if is_word(w, k_i32.as_slice()) {
        Some(TokenType::I32)
    } else if is_word(w, k_add.as_slice()) {
        Some(TokenType::Add)
    } else if is_word(w, k_sub.as_slice()) {
        Some(TokenType::Sub)
    } else if is_word(w, k_mul.as_slice()) {
        Some(TokenType::Mul)
    } else if is_word(w, k_div.as_slice()) {
        Some(TokenType::Div)
    } else if is_word(w, k_exit.as_slice()) {
        Some(TokenType::Exit)
    } else if is_word(w, k_define.as_slice()) {
        Some(TokenType::Define)
    } else if is_word(w, k_ret.as_slice()) {
        Some(TokenType::Return)
    } else if is_word(w, k_call.as_slice()) {
        Some(TokenType::Call)
    } else if is_word(w, k_jmp.as_slice()) {
        Some(TokenType::Jmp)
    } else if is_word(w, k_cmp.as_slice()) {
        Some(TokenType::ICmp)
    } else if is_word(w, k_branch.as_slice()) {
        Some(TokenType::Branch)
    } else if is_word(w, k_le.as_slice()) {
        Some(TokenType::LE)
    } else {
        None
    }
}

#[derive(Default)]
pub struct Scanner {
    index: usize,
    line: i32,
    chars: Vec<char>,
}

impl Scanner {
    /// The characters being scanned.
    pub closed spec fn source(&self) -> Seq<char> {
        self.chars@
    }

    /// Position of the next character to scan.
    pub closed spec fn pos(&self) -> int {
        self.index as int
    }

    /// Number of newlines passed so far.
    pub closed spec fn cur_line(&self) -> int {
        self.line as int
    }

    /// The position lies within the source, which is at most `i32::MAX`
    /// characters long, and the line count cannot pass `i32::MAX` before the
    /// end of it.
    pub open spec fn wf(&self) -> bool {
        &&& 0 <= self.pos() <= self.source().len() <= i32::MAX
        &&& 0 <= self.cur_line()
        &&& self.cur_line() + (self.source().len() - self.pos()) <= i32::MAX
    }

    pub fn new(source: &str) -> (r: Scanner)
        requires
            source@.len() <= i32::MAX,
        ensures
            r.wf(),
            r.source() == source@,
            r.pos() == 0,
            r.cur_line() == 0,
    {
        let chars = chars_of(source);
        Scanner { line: 0, index: 0, chars }
    }

    fn peek(&self) -> (r: Option<char>)
        ensures
            r == (if self.pos() < self.source().len() {
                Some(self.source()[self.pos()])
            } else {
                None
            }),
    {
        if self.index < self.chars.len() {
            Some(self.chars[self.index])
        } else {
            None
        }
    }

    fn consume(&mut self) -> (r: char)
        requires
            old(self).pos() < old(self).source().len(),
        ensures
            r == old(self).source()[old(self).pos()],
            final(self).pos() == old(self).pos() + 1,
            final(self).source() == old(self).source(),
            final(self).cur_line() == old(self).cur_line(),
    {
        assert(self.index < self.chars.len());
        self.index += 1;
        self.chars[self.index - 1]
    }

    fn make_token(&mut self, tokens: &mut Vec<Token>, token_type: TokenType)
        requires
            old(self).pos() < old(self).source().len(),
        ensures
            views(final(tokens)@) == views(old(tokens)@).push((token_type@, old(self).cur_line())),
            final(self).pos() == old(self).pos() + 1,
            final(self).source() == old(self).source(),
            final(self).cur_line() == old(self).cur_line(),
    {
        self.consume();
        tokens.push(Token { token_type, line: self.line });
        proof {
            assert(views(tokens@) =~= views(old(tokens)@).push((token_type@, old(self).cur_line())));
        }
    }

    fn scan_identifer(&mut self, word: &mut Vec<char>)
        requires
            old(self).pos() <= old(self).source().len(),
        ensures
            final(self).pos() == ident_end(old(self).source(), old(self).pos()),
            final(word)@ == old(word)@ + old(self).source().subrange(
                old(self).pos(),
                final(self).pos(),
            ),
            final(self).source() == old(self).source(),
            final(self).cur_line() == old(self).cur_line(),
    {
        let ghost s = self.source();
        let ghost start = self.pos();
        proof {
            lemma_ident_end(s, start);
        }
        loop
            invariant
                self.source() == s,
                s == old(self).source(),
                start == old(self).pos(),
                self.cur_line() == old(self).cur_line(),
                start <= self.pos() <= ident_end(s, start) <= s.len(),
                ident_end(s, self.pos()) == ident_end(s, start),
                word@ == old(word)@ + s.subrange(start, self.pos()),
            ensures
                self.source() == s,
                self.cur_line() == old(self).cur_line(),
                self.pos() == ident_end(s, start),
                word@ == old(word)@ + s.subrange(start, self.pos()),
            decreases s.len() - self.pos(),
        {
            let c = self.peek();
            match c {
                Some(x) => {
                    if !is_alnum(x) {
                        assert(ident_end(s, self.pos()) == self.pos());
                        break;
                    }
                },
                None => {
                    assert(ident_end(s, self.pos()) == self.pos());
                    break;
                },
            }
            let x = self.consume();
            word.push(x);
            proof {
                lemma_ident_end(s, self.pos());
                assert(word@ =~= old(word)@ + s.subrange(start, self.pos()));
            }
        }
    }

    fn scan_string(&mut self, tokens: &mut Vec<Token>) -> (r: Result<bool, LexingError>)
        requires
            old(self).wf(),
            old(self).pos() < old(self).source().len(),
            old(self).source()[old(self).pos()] == '"',
        ensures
            final(self).wf(),
            final(self).source() == old(self).source(),
            took_step(
                old(self).source(),
                old(self).pos(),
                old(self).cur_line(),
                old(tokens)@,
                final(tokens)@,
                final(self).pos(),
                final(self).cur_line(),
                r,
            ),
    {
        let ghost s = self.source();
        let ghost i0 = self.pos();
        let ghost l0 = self.cur_line();
        let start_line = self.line;
        let mut string: Vec<char> = Vec::new();
        self.consume();
        proof {
            lemma_quote_at(s, i0 + 1);
            assert(s.subrange(i0 + 1, i0 + 1) =~= Seq::<char>::empty());
        }
        loop
            invariant
                self.source() == s,
                s == old(self).source(),
                i0 == old(self).pos(),
                l0 == old(self).cur_line(),
                l0 + (s.len() - i0) <= i32::MAX,
                0 <= l0,
                i0 + 1 <= self.pos() <= quote_at(s, i0 + 1) <= s.len(),
                quote_at(s, self.pos()) == quote_at(s, i0 + 1),
                string@ == s.subrange(i0 + 1, self.pos()),
                self.cur_line() == l0 + newlines(s.subrange(i0 + 1, self.pos())),
            ensures
                self.source() == s,
                self.pos() == quote_at(s, i0 + 1),
                string@ == s.subrange(i0 + 1, self.pos()),
                self.cur_line() == l0 + newlines(s.subrange(i0 + 1, self.pos())),
            decreases s.len() - self.pos(),
        {
            match self.peek() {
                Some(x) => {
                    if x == '"' {
                        break;
                    }
                },
                None => {
                    break;
                },
            }
            let ghost p = self.pos();
            let c = self.consume();
            proof {
                lemma_newlines_push(s, i0 + 1, p);
                lemma_newlines(s.subrange(i0 + 1, p));
                lemma_quote_at(s, p + 1);
            }
            if c == '\n' {
                self.line += 1;
            }
            string.push(c);
            proof {
                assert(string@ =~= s.subrange(i0 + 1, self.pos()));
            }
        }
        proof {
            lemma_newlines(s.subrange(i0 + 1, self.pos()));
            lemma_step(s, i0, l0);
        }
        if self.peek().is_none() {
            return Err(LexingError::UnterminatedString { line: start_line });
        }
        self.consume();
        let content = string_of(&string);
        let ghost before = tokens@;
        tokens.push(Token { line: self.line, token_type: TokenType::String { content } });
        proof {
            assert(views(tokens@) =~= views(before) + seq![
                (TokenView::Str(s.subrange(i0 + 1, quote_at(s, i0 + 1))), self.cur_line()),
            ]);
        }
        Ok(true)
    }

    fn scan_number(&mut self, tokens: &mut Vec<Token>) -> (r: Result<bool, LexingError>)
        requires
            old(self).wf(),
            old(self).pos() < old(self).source().len(),
            is_digit(old(self).source()[old(self).pos()]),
        ensures
            final(self).wf(),
            final(self).source() == old(self).source(),
            took_step(
                old(self).source(),
                old(self).pos(),
                old(self).cur_line(),
                old(tokens)@,
                final(tokens)@,
                final(self).pos(),
                final(self).cur_line(),
                r,
            ),
    {
        let ghost s = self.source();
        let ghost i0 = self.pos();
        let ghost e = digits_end(s, i0);
        proof {
            lemma_digits_end(s, i0);
            assert(s.subrange(i0, i0) =~= Seq::<char>::empty());
        }
        let mut value: i64 = 0;
        let mut too_large = false;
        loop
            invariant
                self.source() == s,
                s == old(self).source(),
                i0 == old(self).pos(),
                e == digits_end(s, i0),
                old(self).wf(),
                self.cur_line() == old(self).cur_line(),
                i0 <= self.pos() <= e <= s.len(),
                digits_end(s, self.pos()) == e,
                forall|k: int| i0 <= k < e ==> is_digit(#[trigger] s[k]),
                !too_large ==> value as int == decimal(s.subrange(i0, self.pos())),
                too_large ==> decimal(s.subrange(i0, self.pos())) > i64::MAX,
            ensures
                self.source() == s,
                self.cur_line() == old(self).cur_line(),
                self.pos() == e,
                !too_large ==> value as int == decimal(s.subrange(i0, e)),
                too_large ==> decimal(s.subrange(i0, e)) > i64::MAX,
            decreases s.len() - self.pos(),
        {
            match self.peek() {
                Some(x) => {
                    if !('0' <= x && x <= '9') {
                        break;
                    }
                },
                None => {
                    break;
                },
            }
            let ghost p = self.pos();
            let x = self.consume();
            let d = (x as u32 - '0' as u32) as i64;
            proof {
                lemma_digits_end(s, p + 1);
                assert(s.subrange(i0, p + 1).drop_last() =~= s.subrange(i0, p));
            }
            proof {
                lemma_decimal_nonneg(s.subrange(i0, p));
            }
            if !too_large {
                let next = match value.checked_mul(10) {
                    Some(m) => m.checked_add(d),
                    None => None,
                };
                match next {
                    Some(v) => {
                        value = v;
                    },
                    None => {
                        too_large = true;
                    },
                }
            }
        }
        if too_large {
            proof {
                lemma_step(s, i0, self.cur_line());
            }
            return Err(LexingError::IntegerTooLarge { line: self.line });
        }
        let ghost before = tokens@;
        tokens.push(Token { line: self.line, token_type: TokenType::IntLiteral { value } });
        proof {
            lemma_step(s, i0, self.cur_line());
            assert(views(tokens@) =~= views(before) + seq![
                (TokenView::Int(value as int), self.cur_line()),
            ]);
        }
        Ok(true)
    }

    fn scan_word(&mut self, tokens: &mut Vec<Token>) -> (r: Result<bool, LexingError>)
        requires
            old(self).wf(),
            old(self).pos() < old(self).source().len(),
            is_letter(old(self).source()[old(self).pos()]),
        ensures
            final(self).wf(),
            final(self).source() == old(self).source(),
            took_step(
                old(self).source(),
                old(self).pos(),
                old(self).cur_line(),
                old(tokens)@,
                final(tokens)@,
                final(self).pos(),
                final(self).cur_line(),
                r,
            ),
    {
        let ghost s = self.source();
        let ghost i0 = self.pos();
        let first = self.consume();
        let mut word: Vec<char> = Vec::new();
        word.push(first);
        self.scan_identifer(&mut word);
        proof {
            lemma_ident_end(s, i0 + 1);
            assert(word@ =~= s.subrange(i0, self.pos()));
        }
        let token_type = match keyword_of(&word) {
            Some(k) => k,
            None => TokenType::Label { name: string_of(&word) },
        };
        let ghost before = tokens@;
        let ghost tv = token_type@;
        tokens.push(Token { token_type, line: self.line });
        proof {
            lemma_step(s, i0, self.cur_line());
            assert(views(tokens@) =~= views(before) + seq![(tv, self.cur_line())]);
        }
        Ok(true)
    }

    /// Scans the token that starts at the current position, appending what it
    /// yields to `tokens`; `Ok(false)` once the input is used up. A reserved
    /// word ends where its run of letters and digits ends: the character
    /// after it is scanned anew. A decimal literal too large for an `i64` is
    /// an error, reported once its whole run of digits is read. On an error
    /// the scanner stays where `step` says: at the offending character, or
    /// after the digits, or at the end of an unterminated string.
    pub fn scan_token(&mut self, tokens: &mut Vec<Token>) -> (r: Result<bool, LexingError>)
        requires
            old(self).wf(),
        ensures
            final(self).wf(),
            final(self).source() == old(self).source(),
            took_step(
                old(self).source(),
                old(self).pos(),
                old(self).cur_line(),
                old(tokens)@,
                final(tokens)@,
                final(self).pos(),
                final(self).cur_line(),
                r,
            ),
    {
        let ghost s = self.source();
        let ghost i0 = self.pos();
        let ghost l0 = self.cur_line();
        proof {
            lemma_step(s, i0, l0);
        }
        let c = match self.peek() {
            None => {
                return Ok(false);
            },
            Some(c) => c,
        };
        if let Some(t) = punctuation_of(c) {
            let ghost before = tokens@;
            proof {
                assert(t@ == TokenView::Plain(t));
            }
            self.make_token(tokens, t);
            proof {
                assert(views(tokens@) =~= views(before) + seq![(TokenView::Plain(t), l0)]);
            }
            return Ok(true);
        }
        if c == '"' {
            self.scan_string(tokens)
        } else if c == '%' {
            let first = self.consume();
            let mut string: Vec<char> = Vec::new();
            string.push(first);
            self.scan_identifer(&mut string);
            proof {
                lemma_ident_end(s, i0 + 1);
                assert(string@ =~= s.subrange(i0, self.pos()));
            }
            let ghost before = tokens@;
            tokens.push(Token { line: self.line, token_type: TokenType::Register { name: string_of(&string) } });
            proof {
                assert(views(tokens@) =~= views(before) + seq![
                    (TokenView::Register(s.subrange(i0, self.pos())), l0),
                ]);
            }
            Ok(true)
        } else if c == '@' {
            self.consume();
            let mut string: Vec<char> = Vec::new();
            self.scan_identifer(&mut string);
            proof {
                lemma_ident_end(s, i0 + 1);
                assert(string@ =~= s.subrange(i0 + 1, self.pos()));
            }
            let ghost before = tokens@;
            let ghost name = string@;
            tokens.push(Token { line: self.line, token_type: TokenType::Function { name: string_of(&string) } });
            tokens.push(Token { token_type: TokenType::Label { name: string_of(&string) }, line: self.line });
            tokens.push(Token { token_type: TokenType::Colon, line: self.line });
            proof {
                assert(views(tokens@) =~= views(before) + seq![
                    (TokenView::Function(name), l0),
                    (TokenView::Label(name), l0),
                    (TokenView::Plain(TokenType::Colon), l0),
                ]);
            }
            Ok(true)
        } else if c == ' ' || c == '\r' || c == '\t' {
            self.consume();
            Ok(true)
        } else if c == '\n' {
            self.line += 1;
            self.consume();
            Ok(true)
        } else if '0' <= c && c <= '9' {
            self.scan_number(tokens)
        } else if ('a' <= c && c <= 'z') || ('A' <= c && c <= 'Z') {
            self.scan_word(tokens)
        } else {
            Err(LexingError::UnexpectedCharacter { line: self.line })
        }
    }

    /// Scans from the current position to the end of the source, on a line
    /// count started afresh at 0. On success the tokens end with `EOF`, and
    /// the scanner is rewound to the start of the source.
    pub fn scan_tokens(&mut self) -> (r: Result<Vec<Token>, LexingError>)
        requires
            old(self).wf(),
        ensures
            final(self).wf(),
            final(self).source() == old(self).source(),
            lex(old(self).source(), old(self).pos(), 0) == match r {
                Ok(ts) => Ok(views(ts@)),
                Err(e) => Err(e),
            },
            r is Ok ==> final(self).pos() == 0 && final(self).cur_line() == 0,
    {
        let ghost s = self.source();
        let ghost i0 = self.pos();
        let mut tokens: Vec<Token> = Vec::new();
        self.line = 0;
        proof {
            assert(views(tokens@) =~= Seq::<(TokenView, int)>::empty());
            match lex(s, i0, 0) {
                Ok(rest) => {
                    assert(views(tokens@) + rest =~= rest);
                },
                Err(_) => {},
            }
        }
        loop
            invariant
                self.wf(),
                self.source() == s,
                s == old(self).source(),
                i0 == old(self).pos(),
                lex(s, i0, 0) == match lex(s, self.pos(), self.cur_line()) {
                    Ok(rest) => Ok(views(tokens@) + rest),
                    Err(e) => Err(e),
                },
            ensures
                self.wf(),
                self.source() == s,
                lex(s, i0, 0) == Ok::<Seq<(TokenView, int)>, LexingError>(
                    views(tokens@) + seq![(TokenView::Plain(TokenType::EOF), self.cur_line())],
                ),
            decreases s.len() - self.pos(),
        {
            let ghost p = self.pos();
            let ghost l = self.cur_line();
            let ghost before = tokens@;
            proof {
                lemma_step(s, p, l);
            }
            match self.scan_token(&mut tokens) {
                Ok(true) => {
                    proof {
                        match lex(s, self.pos(), self.cur_line()) {
                            Ok(rest) => {
                                if let Step::Emit { tokens: ts, next, line: l2 } = step(s, p, l) {
                                    assert(views(tokens@) + rest =~= views(before) + (ts + rest));
                                }
                            },
                            Err(_) => {},
                        }
                    }
                },
                Ok(false) => {
                    break;
                },
                Err(e) => {
                    return Err(e);
                },
            }
        }
        let ghost before = tokens@;
        tokens.push(Token { token_type: TokenType::EOF, line: self.line });
        proof {
            assert(views(tokens@) =~= views(before) + seq![
                (TokenView::Plain(TokenType::EOF), self.cur_line()),
            ]);
        }
        self.index = 0;
        self.line = 0;
        Ok(tokens)
    }
}

} // verus!
