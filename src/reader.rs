//! Recursive-descent reader: turns a character buffer into a tree of tokens,
//! tracking the line, character and byte offset of each.
use vstd::prelude::*;

verus! {

/// A place in the source: 1-based line and character, 0-based offset.
#[derive(Debug, Clone, Copy, PartialEq, Eq, Structural)]
pub struct Position {
    pub line: usize,
    pub character: usize,
    pub byte: usize,
}

/// What a token denotes.
#[derive(Debug)]
pub enum Obj {
    Nil,
    Integer(i64),
    Symbol(String),
    List(Vec<Token>),
}

#[derive(Debug)]
pub struct Token {
    pub position: Position,
    pub obj: Obj,
}

/// The mathematical value of an [`Obj`].
pub enum ObjModel {
    Nil,
    Integer(int),
    Symbol(Seq<char>),
    List(Seq<TokenModel>),
}

/// The mathematical value of a [`Token`].
pub struct TokenModel {
    pub position: Position,
    pub obj: ObjModel,
}

pub open spec fn token_model(t: Token) -> TokenModel
    decreases t,
{
    TokenModel {
        position: t.position,
        obj: match t.obj {
            Obj::Nil => ObjModel::Nil,
            Obj::Integer(n) => ObjModel::Integer(n as int),
            Obj::Symbol(s) => ObjModel::Symbol(s@),
            Obj::List(v) => ObjModel::List(tokens_model(v@)),
        },
    }
}

pub open spec fn tokens_model(ts: Seq<Token>) -> Seq<TokenModel>
    decreases ts,
{
    if ts.len() == 0 {
        Seq::empty()
    } else {
        tokens_model(ts.subrange(0, ts.len() - 1)).push(token_model(ts[ts.len() - 1]))
    }
}

impl View for Token {
    type V = TokenModel;

    open spec fn view(&self) -> TokenModel {
        token_model(*self)
    }
}

/// What `char::is_whitespace` answers for `c`.
pub uninterp spec fn whitespace_char(c: char) -> bool;

/// What `char::is_alphabetic` answers for `c`.
pub uninterp spec fn alphabetic_char(c: char) -> bool;

/// Relies on `char::is_whitespace`: whether `c` has Unicode's White_Space property.
#[verifier::external_body]
fn is_whitespace(c: char) -> (r: bool)
    ensures
        r == whitespace_char(c),
{
    c.is_whitespace()
}

/// Relies on `char::is_alphabetic`: whether `c` has Unicode's Alphabetic property.
#[verifier::external_body]
fn is_alphabetic(c: char) -> (r: bool)
    ensures
        r == alphabetic_char(c),
{
    c.is_alphabetic()
}

/// Relies on `String::push`: appends `c` at the end of `s`.
#[verifier::external_body]
fn push_char(s: &mut String, c: char)
    ensures
        final(s)@ == old(s)@.push(c),
{
    s.push(c)
}

pub open spec fn digit_char(c: char) -> bool {
    '0' <= c <= '9'
}

/// The ASCII punctuation characters: `!` to `/`, `:` to `@`, `[` to `` ` `` and `{` to `~`.
pub open spec fn punctuation_char(c: char) -> bool {
    ('!' <= c <= '/') || (':' <= c <= '@') || ('[' <= c <= '`') || ('{' <= c <= '~')
}

/// Characters that may make up a symbol: letters, decimal digits, and ASCII
/// punctuation other than `(`, `)`, `$`, `^` and `.`.
pub open spec fn symbol_char(c: char) -> bool {
    alphabetic_char(c) || digit_char(c) || (punctuation_char(c) && c != '(' && c != ')' && c != '$'
        && c != '^' && c != '.')
}

pub open spec fn line_break(c: char) -> bool {
    c == '\n' || c == '\r'
}

fn is_digit(c: char) -> (r: bool)
    ensures
        r == digit_char(c),
{
    '0' <= c && c <= '9'
}

fn is_punctuation(c: char) -> (r: bool)
    ensures
        r == punctuation_char(c),
{
    ('!' <= c && c <= '/') || (':' <= c && c <= '@') || ('[' <= c && c <= '`') || ('{' <= c
        && c <= '~')
}

fn is_symbol_char(c: char) -> (r: bool)
    ensures
        r == symbol_char(c),
{
    if is_alphabetic(c) || is_digit(c) {
        true
    } else if is_punctuation(c) {
        match c {
            '(' | ')' | '$' | '^' | '.' => false,
            _ => true,
        }
    } else {
        false
    }
}

/// A character is left to read at `p`.
pub open spec fn has_char(buf: Seq<char>, p: Position) -> bool {
    p.byte < buf.len() <= usize::MAX
}

/// The position after reading `c` at `p`: a line break starts a new line.
pub open spec fn step(p: Position, c: char) -> Position {
    if line_break(c) {
        Position { line: (p.line + 1) as usize, character: 1, byte: (p.byte + 1) as usize }
    } else {
        Position { line: p.line, character: (p.character + 1) as usize, byte: (p.byte + 1) as usize }
    }
}

/// `p` lies in `buf`, with room in the counters for every character left.
pub open spec fn in_bounds(buf: Seq<char>, p: Position) -> bool {
    &&& p.byte <= buf.len()
    &&& p.line + (buf.len() - p.byte) <= usize::MAX
    &&& p.character + (buf.len() - p.byte) <= usize::MAX
}

/// The position after reading up to `n` characters from `p`, stopping at the end.
pub open spec fn advance(buf: Seq<char>, p: Position, n: nat) -> Position
    decreases n,
{
    if n == 0 || !has_char(buf, p) {
        p
    } else {
        advance(buf, step(p, buf[p.byte as int]), (n - 1) as nat)
    }
}

/// The position after the whitespace that starts at `p`.
pub open spec fn skip_ws(buf: Seq<char>, p: Position) -> Position
    decreases buf.len() - p.byte,
{
    if has_char(buf, p) && whitespace_char(buf[p.byte as int]) {
        skip_ws(buf, step(p, buf[p.byte as int]))
    } else {
        p
    }
}

/// The position of the line break (or end) that ends the comment text at `p`.
pub open spec fn comment_rest(buf: Seq<char>, p: Position) -> Position
    decreases buf.len() - p.byte,
{
    if has_char(buf, p) && !line_break(buf[p.byte as int]) {
        comment_rest(buf, step(p, buf[p.byte as int]))
    } else {
        p
    }
}

/// The position after a comment at `p`, if one starts there.
pub open spec fn skip_comment(buf: Seq<char>, p: Position) -> Position {
    if has_char(buf, p) && buf[p.byte as int] == ';' {
        comment_rest(buf, step(p, ';'))
    } else {
        p
    }
}

/// The position after all whitespace and comments that start at `p`.
pub open spec fn skip_blank(buf: Seq<char>, p: Position) -> Position
    decreases buf.len() - p.byte,
{
    let q = skip_ws(buf, p);
    if has_char(buf, q) && buf[q.byte as int] == ';' {
        proof {
            lemma_skip_ws_forward(buf, p);
            lemma_comment_rest_forward(buf, step(q, ';'));
        }
        skip_blank(buf, skip_comment(buf, q))
    } else {
        q
    }
}

pub proof fn lemma_step(buf: Seq<char>, p: Position)
    requires
        in_bounds(buf, p),
        has_char(buf, p),
    ensures
        in_bounds(buf, step(p, buf[p.byte as int])),
        step(p, buf[p.byte as int]).byte == p.byte + 1,
{
}

pub proof fn lemma_skip_ws_forward(buf: Seq<char>, p: Position)
    ensures
        skip_ws(buf, p).byte >= p.byte,
        p.byte <= buf.len() ==> skip_ws(buf, p).byte <= buf.len(),
        in_bounds(buf, p) ==> in_bounds(buf, skip_ws(buf, p)),
    decreases buf.len() - p.byte,
{
    if has_char(buf, p) && whitespace_char(buf[p.byte as int]) {
        lemma_skip_ws_forward(buf, step(p, buf[p.byte as int]));
    }
}

pub proof fn lemma_comment_rest_forward(buf: Seq<char>, p: Position)
    ensures
        comment_rest(buf, p).byte >= p.byte,
        p.byte <= buf.len() ==> comment_rest(buf, p).byte <= buf.len(),
        in_bounds(buf, p) ==> in_bounds(buf, comment_rest(buf, p)),
    decreases buf.len() - p.byte,
{
    if has_char(buf, p) && !line_break(buf[p.byte as int]) {
        lemma_comment_rest_forward(buf, step(p, buf[p.byte as int]));
    }
}

pub proof fn lemma_skip_blank_forward(buf: Seq<char>, p: Position)
    ensures
        skip_blank(buf, p).byte >= p.byte,
        p.byte <= buf.len() ==> skip_blank(buf, p).byte <= buf.len(),
        in_bounds(buf, p) ==> in_bounds(buf, skip_blank(buf, p)),
    decreases buf.len() - p.byte,
{
    lemma_skip_ws_forward(buf, p);
    let q = skip_ws(buf, p);
    if has_char(buf, q) && buf[q.byte as int] == ';' {
        lemma_comment_rest_forward(buf, step(q, ';'));
        lemma_skip_blank_forward(buf, skip_comment(buf, q));
    }
}

/// The end of the run of decimal digits that starts at offset `i`.
pub open spec fn digit_run_end(buf: Seq<char>, i: int) -> int
    decreases buf.len() - i,
{
    if 0 <= i < buf.len() && digit_char(buf[i]) {
        digit_run_end(buf, i + 1)
    } else {
        i
    }
}

/// The end of the run of symbol characters that starts at offset `i`.
pub open spec fn symbol_run_end(buf: Seq<char>, i: int) -> int
    decreases buf.len() - i,
{
    if 0 <= i < buf.len() && symbol_char(buf[i]) {
        symbol_run_end(buf, i + 1)
    } else {
        i
    }
}

/// The number that a string of decimal digits denotes.
pub open spec fn digits_value(s: Seq<char>) -> nat
    decreases s.len(),
{
    if s.len() == 0 {
        0
    } else {
        digits_value(s.drop_last()) * 10 + (s.last() as nat - '0' as nat) as nat
    }
}

/// Reading an integer at `p`: the maximal run of digits, when it is not empty
/// and its value fits in an `i64`; otherwise no token and `p` itself.
pub open spec fn read_integer(buf: Seq<char>, p: Position) -> (Option<TokenModel>, Position) {
    let end = digit_run_end(buf, p.byte as int);
    let value = digits_value(buf.subrange(p.byte as int, end));
    if end > p.byte && value <= i64::MAX {
        (
            Some(TokenModel { position: p, obj: ObjModel::Integer(value as int) }),
            advance(buf, p, (end - p.byte) as nat),
        )
    } else {
        (None, p)
    }
}

/// Reading a symbol at `p`: the maximal run of symbol characters, when it is
/// not empty; otherwise no token and `p` itself.
pub open spec fn read_symbol(buf: Seq<char>, p: Position) -> (Option<TokenModel>, Position) {
    let end = symbol_run_end(buf, p.byte as int);
    if end > p.byte {
        (
            Some(
                TokenModel {
                    position: p,
                    obj: ObjModel::Symbol(buf.subrange(p.byte as int, end)),
                },
            ),
            advance(buf, p, (end - p.byte) as nat),
        )
    } else {
        (None, p)
    }
}

/// Reading one token at `p`, after whitespace and comments: a list, an
/// integer or a symbol, chosen by its first character. The position returned
/// is where reading stopped: after the token, or where it went wrong.
pub open spec fn read_token(buf: Seq<char>, p: Position) -> (Option<TokenModel>, Position)
    decreases buf.len() - p.byte, 0int,
{
    let q = skip_blank(buf, p);
    proof {
        lemma_skip_blank_forward(buf, p);
    }
    if !has_char(buf, q) {
        (None, q)
    } else if buf[q.byte as int] == '(' {
        read_items(buf, step(q, '('), q, Seq::empty())
    } else if digit_char(buf[q.byte as int]) {
        read_integer(buf, q)
    } else {
        read_symbol(buf, q)
    }
}

/// Reading the rest of a list that opened at `start`, with `items` read so
/// far: tokens up to the closing parenthesis. The end of the buffer before it,
/// or a token that cannot be read, leaves no token (as would a token that did
/// not move forward within the buffer, which reading never gives).
pub open spec fn read_items(buf: Seq<char>, p: Position, start: Position, items: Seq<TokenModel>) -> (
    Option<TokenModel>,
    Position,
)
    decreases buf.len() - p.byte, 1int,
{
    let q = skip_blank(buf, p);
    proof {
        lemma_skip_blank_forward(buf, p);
    }
    if !has_char(buf, q) {
        (None, q)
    } else if buf[q.byte as int] == ')' {
        (Some(TokenModel { position: start, obj: ObjModel::List(items) }), step(q, ')'))
    } else {
        let (t, r) = read_token(buf, q);
        if t is None {
            (None, r)
        } else if r.byte <= p.byte || r.byte > buf.len() {
            (None, r)
        } else {
            read_items(buf, r, start, items.push(t->0))
        }
    }
}

pub open spec fn opt_model(t: Option<Token>) -> Option<TokenModel> {
    match t {
        Some(t) => Some(t@),
        None => None,
    }
}

/// Reading `n + 1` characters reads `n`, then the next one.
pub proof fn lemma_advance_next(buf: Seq<char>, p: Position, n: nat)
    requires
        in_bounds(buf, p),
        p.byte + n < buf.len() <= usize::MAX,
    ensures
        advance(buf, p, n).byte == p.byte + n,
        in_bounds(buf, advance(buf, p, n)),
        advance(buf, p, n + 1) == step(advance(buf, p, n), buf[p.byte + n]),
    decreases n,
{
    lemma_step(buf, p);
    if n > 0 {
        lemma_advance_next(buf, step(p, buf[p.byte as int]), (n - 1) as nat);
    } else {
        assert(advance(buf, step(p, buf[p.byte as int]), 0) == step(p, buf[p.byte as int]));
    }
}

pub proof fn lemma_skip_ws_idem(buf: Seq<char>, p: Position)
    ensures
        skip_ws(buf, skip_ws(buf, p)) == skip_ws(buf, p),
    decreases buf.len() - p.byte,
{
    if has_char(buf, p) && whitespace_char(buf[p.byte as int]) {
        lemma_skip_ws_idem(buf, step(p, buf[p.byte as int]));
    }
}

/// Skipping whitespace and comments twice skips no more than once.
pub proof fn lemma_skip_blank_idem(buf: Seq<char>, p: Position)
    ensures
        skip_blank(buf, skip_blank(buf, p)) == skip_blank(buf, p),
    decreases buf.len() - p.byte,
{
    lemma_skip_ws_idem(buf, p);
    lemma_skip_blank_forward(buf, p);
    let q = skip_ws(buf, p);
    if has_char(buf, q) && buf[q.byte as int] == ';' {
        lemma_skip_ws_forward(buf, p);
        lemma_comment_rest_forward(buf, step(q, ';'));
        lemma_skip_blank_idem(buf, skip_comment(buf, q));
    }
}

/// A digit string's prefix denotes no more than the whole.
pub proof fn lemma_digits_prefix(u: Seq<char>, k: int)
    requires
        0 <= k <= u.len(),
    ensures
        digits_value(u.subrange(0, k)) <= digits_value(u),
    decreases u.len(),
{
    if k == u.len() {
        assert(u.subrange(0, k) =~= u);
    } else {
        lemma_digits_prefix(u.drop_last(), k);
        assert(u.drop_last().subrange(0, k) =~= u.subrange(0, k));
    }
}

/// A cursor over a character buffer. `name` labels the source in diagnostics.
#[derive(Clone, Copy)]
pub struct Reader<'a> {
    pub name: &'a str,
    pub position: Position,
    pub buffer: &'a Vec<char>,
}

impl<'a> Reader<'a> {
    pub open spec fn wf(&self) -> bool {
        &&& in_bounds(self.buffer@, self.position)
        &&& self.buffer@.len() <= usize::MAX
    }

    /// Another cursor over the same source.
    pub open spec fn same_source(&self, other: Reader<'a>) -> bool {
        self.name == other.name && self.buffer == other.buffer
    }

    /// A cursor at the start of `buffer`: line 1, character 1, offset 0.
    pub fn new(name: &'a str, buffer: &'a Vec<char>) -> (r: Reader<'a>)
        requires
            buffer@.len() < usize::MAX,
        ensures
            r.wf(),
            r.name == name,
            r.buffer == buffer,
            r.position == (Position { line: 1, character: 1, byte: 0 }),
    {
        Reader { name: name, position: Position { byte: 0, line: 1, character: 1 }, buffer: buffer }
    }

    pub fn at_end(&self) -> (r: bool)
        ensures
            r == (self.position.byte >= self.buffer@.len()),
    {
        self.position.byte >= self.buffer.len()
    }

    /// Whether nothing but whitespace and comments is left: reading from
    /// here ends the token sequence cleanly rather than on malformed text.
    pub fn only_blank_left(self) -> (r: bool)
        requires
            self.wf(),
        ensures
            r == !has_char(self.buffer@, skip_blank(self.buffer@, self.position)),
    {
        self.skip_blank().at_end()
    }

    fn peek_char(&self) -> (r: Option<char>)
        requires
            self.wf(),
        ensures
            r == (if has_char(self.buffer@, self.position) {
                Some(self.buffer@[self.position.byte as int])
            } else {
                None
            }),
    {
        if self.at_end() {
            None
        } else {
            Some(self.buffer[self.position.byte])
        }
    }

    fn skip_chars(self, n: usize) -> (r: Reader<'a>)
        requires
            self.wf(),
        ensures
            r.wf(),
            r.same_source(self),
            r.position == advance(self.buffer@, self.position, n as nat),
    {
        let ghost buf = self.buffer@;
        let mut r = self;
        let mut i: usize = 0;
        while i < n
            invariant
                r.wf(),
                r.same_source(self),
                buf == self.buffer@,
                i <= n,
                advance(buf, r.position, (n - i) as nat) == advance(buf, self.position, n as nat),
            decreases n - i,
        {
            match r.peek_char() {
                Some(c) => {
                    proof {
                        lemma_step(buf, r.position);
                    }
                    if c == '\n' || c == '\r' {
                        r.position.line = r.position.line + 1;
                        r.position.character = 1;
                    } else {
                        r.position.character = r.position.character + 1;
                    }
                },
                None => {
                    return r;
                },
            }
            r.position.byte = r.position.byte + 1;
            i = i + 1;
        }
        r
    }

    fn skip_char(self) -> (r: Reader<'a>)
        requires
            self.wf(),
        ensures
            r.wf(),
            r.same_source(self),
            r.position == advance(self.buffer@, self.position, 1),
            has_char(self.buffer@, self.position) ==> r.position == step(
                self.position,
                self.buffer@[self.position.byte as int],
            ),
    {
        proof {
            if has_char(self.buffer@, self.position) {
                lemma_advance_next(self.buffer@, self.position, 0);
            }
        }
        self.skip_chars(1)
    }

    /// Skips a comment, from `;` up to the next line break or the end.
    fn skip_comments(self) -> (r: Reader<'a>)
        requires
            self.wf(),
        ensures
            r.wf(),
            r.same_source(self),
            r.position == skip_comment(self.buffer@, self.position),
    {
        let ghost buf = self.buffer@;
        match self.peek_char() {
            Some(c) => {
                if c != ';' {
                    return self;
                }
            },
            None => {
                return self;
            },
        }
        let mut r = self.skip_char();
        loop
            invariant
                r.wf(),
                r.same_source(self),
                buf == self.buffer@,
                comment_rest(buf, r.position) == skip_comment(buf, self.position),
            decreases buf.len() - r.position.byte,
        {
            match r.peek_char() {
                Some(c) => {
                    if c == '\n' || c == '\r' {
                        return r;
                    }
                },
                None => {
                    return r;
                },
            }
            r = r.skip_char();
        }
    }

    fn skip_whitespace(self) -> (r: Reader<'a>)
        requires
            self.wf(),
        ensures
            r.wf(),
            r.same_source(self),
            r.position == skip_ws(self.buffer@, self.position),
    {
        let ghost buf = self.buffer@;
        let mut r = self;
        let mut c = r.peek_char();
        while c.is_some() && is_whitespace(c.unwrap())
            invariant
                r.wf(),
                r.same_source(self),
                buf == self.buffer@,
                skip_ws(buf, r.position) == skip_ws(buf, self.position),
                c == (if has_char(buf, r.position) {
                    Some(buf[r.position.byte as int])
                } else {
                    None
                }),
            decreases buf.len() - r.position.byte,
        {
            r = r.skip_char();
            c = r.peek_char();
        }
        r
    }

    /// Skips all whitespace and comments.
    fn skip_blank(self) -> (r: Reader<'a>)
        requires
            self.wf(),
        ensures
            r.wf(),
            r.same_source(self),
            r.position == skip_blank(self.buffer@, self.position),
    {
        let ghost buf = self.buffer@;
        let mut r = self;
        loop
            invariant
                r.wf(),
                r.same_source(self),
                buf == self.buffer@,
                skip_blank(buf, r.position) == skip_blank(buf, self.position),
            decreases buf.len() - r.position.byte,
        {
            let ghost before = r.position;
            r = r.skip_whitespace();
            match r.peek_char() {
                Some(c) => {
                    if c != ';' {
                        return r;
                    }
                },
                None => {
                    return r;
                },
            }
            proof {
                lemma_skip_ws_forward(buf, before);
                lemma_comment_rest_forward(buf, step(r.position, ';'));
            }
            r = r.skip_comments();
        }
    }

    /// Reads the run of decimal digits at the cursor as an `i64`. A run that
    /// is empty or too large gives no token and the cursor unchanged.
    fn parse_integer(self) -> (r: (Option<Token>, Reader<'a>))
        requires
            self.wf(),
        ensures
            r.1.wf(),
            r.1.same_source(self),
            (opt_model(r.0), r.1.position) == read_integer(self.buffer@, self.position),
            r.0 is Some ==> r.1.position.byte > self.position.byte,
    {
        let ghost buf = self.buffer@;
        let start = self.position.byte;
        let mut new_reader = self;
        let mut c = new_reader.peek_char();
        while c.is_some() && is_digit(c.unwrap())
            invariant
                self.wf(),
                new_reader.wf(),
                new_reader.same_source(self),
                buf == self.buffer@,
                start == self.position.byte,
                start <= new_reader.position.byte,
                new_reader.position == advance(
                    buf,
                    self.position,
                    (new_reader.position.byte - start) as nat,
                ),
                digit_run_end(buf, new_reader.position.byte as int) == digit_run_end(
                    buf,
                    start as int,
                ),
                forall|k: int| start <= k < new_reader.position.byte ==> digit_char(#[trigger] buf[k]),
                c == (if has_char(buf, new_reader.position) {
                    Some(buf[new_reader.position.byte as int])
                } else {
                    None
                }),
            decreases buf.len() - new_reader.position.byte,
        {
            proof {
                lemma_advance_next(buf, self.position, (new_reader.position.byte - start) as nat);
            }
            new_reader = new_reader.skip_char();
            c = new_reader.peek_char();
        }
        let end = new_reader.position.byte;
        assert(end == digit_run_end(buf, start as int));
        let ghost digits = buf.subrange(start as int, end as int);
        let mut value: i64 = 0;
        let mut i: usize = start;
        while i < end
            invariant
                self.wf(),
                buf == self.buffer@,
                start <= i <= end <= buf.len(),
                start == self.position.byte,
                end == digit_run_end(buf, start as int),
                new_reader.position == advance(buf, self.position, (end - start) as nat),
                digits == buf.subrange(start as int, end as int),
                forall|k: int| start <= k < end ==> digit_char(#[trigger] buf[k]),
                value as int == digits_value(buf.subrange(start as int, i as int)),
                0 <= value,
            decreases end - i,
        {
            let d = (self.buffer[i] as u32 - '0' as u32) as i64;
            proof {
                assert(digit_char(buf[i as int]));
                assert(buf.subrange(start as int, i + 1).drop_last() =~= buf.subrange(
                    start as int,
                    i as int,
                ));
            }
            if value > (i64::MAX - d) / 10 {
                proof {
                    assert(value * 10 + d > i64::MAX) by (nonlinear_arith)
                        requires
                            value > (i64::MAX - d) / 10,
                            0 <= d <= 9,
                    ;
                    assert(buf.subrange(start as int, end as int).subrange(0, i + 1 - start)
                        =~= buf.subrange(start as int, i + 1));
                    lemma_digits_prefix(digits, i + 1 - start);
                    assert(digits_value(buf.subrange(start as int, i + 1)) == value * 10 + d);
                    assert(digits_value(digits) > i64::MAX);
                }
                return (None, self);
            }
            value = value * 10 + d;
            i = i + 1;
        }
        if end == start {
            return (None, self);
        }
        (Some(Token { position: self.position, obj: Obj::Integer(value) }), new_reader)
    }

    /// Reads the run of symbol characters at the cursor. An empty run gives
    /// no token and the cursor unchanged.
    fn parse_symbol(self) -> (r: (Option<Token>, Reader<'a>))
        requires
            self.wf(),
        ensures
            r.1.wf(),
            r.1.same_source(self),
            (opt_model(r.0), r.1.position) == read_symbol(self.buffer@, self.position),
            r.0 is Some ==> r.1.position.byte > self.position.byte,
    {
        let ghost buf = self.buffer@;
        let start = self.position.byte;
        let mut contents = String::new();
        let mut new_reader = self;
        let mut c = new_reader.peek_char();
        while c.is_some() && is_symbol_char(c.unwrap())
            invariant
                self.wf(),
                new_reader.wf(),
                new_reader.same_source(self),
                buf == self.buffer@,
                start == self.position.byte,
                start <= new_reader.position.byte,
                new_reader.position == advance(
                    buf,
                    self.position,
                    (new_reader.position.byte - start) as nat,
                ),
                symbol_run_end(buf, new_reader.position.byte as int) == symbol_run_end(
                    buf,
                    start as int,
                ),
                contents@ == buf.subrange(start as int, new_reader.position.byte as int),
                c == (if has_char(buf, new_reader.position) {
                    Some(buf[new_reader.position.byte as int])
                } else {
                    None
                }),
            decreases buf.len() - new_reader.position.byte,
        {
            proof {
                lemma_advance_next(buf, self.position, (new_reader.position.byte - start) as nat);
            }
            push_char(&mut contents, c.unwrap());
            new_reader = new_reader.skip_char();
            c = new_reader.peek_char();
            assert(contents@ =~= buf.subrange(start as int, new_reader.position.byte as int));
        }
        if new_reader.position.byte == start {
            return (None, self);
        }
        (Some(Token { position: self.position, obj: Obj::Symbol(contents) }), new_reader)
    }

    /// Reads a list whose `(` is at the cursor: tokens up to the matching `)`.
    fn parse_list(self) -> (r: (Option<Token>, Reader<'a>))
        requires
            self.wf(),
            has_char(self.buffer@, self.position),
            self.buffer@[self.position.byte as int] == '(',
        ensures
            r.1.wf(),
            r.1.same_source(self),
            (opt_model(r.0), r.1.position) == read_items(
                self.buffer@,
                step(self.position, '('),
                self.position,
                Seq::empty(),
            ),
            r.0 is Some ==> r.1.position.byte > self.position.byte,
        decreases self.buffer@.len() - self.position.byte, 0int,
    {
        let ghost buf = self.buffer@;
        let root_pos = self.position;
        let mut tokens: Vec<Token> = Vec::new();
        let mut r = self.skip_char();
        proof {
            assert(tokens_model(tokens@) =~= Seq::<TokenModel>::empty());
        }
        loop
            invariant
                self.wf(),
                r.wf(),
                r.same_source(self),
                buf == self.buffer@,
                root_pos == self.position,
                r.position.byte > self.position.byte,
                read_items(buf, r.position, root_pos, tokens_model(tokens@)) == read_items(
                    buf,
                    step(self.position, '('),
                    self.position,
                    Seq::empty(),
                ),
            decreases buf.len() - r.position.byte,
        {
            let ghost p = r.position;
            proof {
                lemma_skip_blank_idem(buf, p);
                lemma_skip_blank_forward(buf, p);
            }
            r = r.skip_blank();
            match r.peek_char() {
                Some(c) => {
                    if c == ')' {
                        let end = r.skip_char();
                        return (Some(Token { position: root_pos, obj: Obj::List(tokens) }), end);
                    }
                },
                None => {
                    return (None, r);
                },
            }
            let (token, new_reader) = r.parse_token();
            match token {
                Some(token) => {
                    let ghost before = tokens@;
                    let ghost t = token@;
                    tokens.push(token);
                    proof {
                        assert(tokens@.subrange(0, tokens@.len() - 1) =~= before);
                        assert(tokens_model(tokens@) == tokens_model(before).push(t));
                    }
                    r = new_reader;
                },
                None => {
                    return (None, new_reader);
                },
            }
        }
    }

    /// Reads the next token, after any whitespace and comments: a list at
    /// `(`, an integer at a decimal digit, a symbol otherwise. Returns the
    /// token, or none at the end of the buffer or where the text is malformed,
    /// together with the cursor where reading stopped.
    pub fn parse_token(self) -> (r: (Option<Token>, Reader<'a>))
        requires
            self.wf(),
        ensures
            r.1.wf(),
            r.1.same_source(self),
            (opt_model(r.0), r.1.position) == read_token(self.buffer@, self.position),
            r.0 is Some ==> r.1.position.byte > self.position.byte,
        decreases self.buffer@.len() - self.position.byte, 1int,
    {
        let ghost buf = self.buffer@;
        proof {
            lemma_skip_blank_forward(buf, self.position);
        }
        let r = self.skip_blank();
        match r.peek_char() {
            None => (None, r),
            Some(c) => {
                if c == '(' {
                    r.parse_list()
                } else if is_digit(c) {
                    r.parse_integer()
                } else {
                    r.parse_symbol()
                }
            },
        }
    }
}

} // verus!
