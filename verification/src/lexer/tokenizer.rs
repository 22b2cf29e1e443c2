//! Splits source text into tokens.

use vstd::prelude::*;
use vstd::std_specs::cmp::PartialEqSpecImpl;
use vstd::utf8::encode_utf8;

use crate::text::{
    byte_count, byte_len, char_width, chars_of, is_whitespace, is_whitespace_char,
    lemma_byte_len_take, lemma_encode_concat, lemma_encode_scalar_len, split_chars, str_equals,
};

verus! {

const RESERVED_CHARS: &'static str = " +-*/=%;:,.({<[]>})&|!?\"'\\";

/// The characters that end a piece of text and stand as tokens of their own.
pub open spec fn reserved_chars() -> Seq<char> {
    seq![
        ' ', '+', '-', '*', '/', '=', '%', ';', ':', ',', '.', '(', '{', '<', '[', ']', '>', '}',
        ')', '&', '|', '!', '?', '"', '\'', '\\',
    ]
}

/// "+-*/=%;:,.({<[]>})&|!?\"'\\"
#[derive(Debug, Eq)]
pub enum Tokens {
    /// opening 0, closing 1
    Parenteses(bool),
    /// opening 0, closing 1
    CurlyBracket(bool),
    /// opening 0, closing 1
    SquareBracket(bool),
    /// opening 0, closing 1
    AngleBracket(bool),
    Operator(Operators),
    Colon,
    Dot,
    Semicolon,
    Comma,
    Quotes,
    DoubleQuotes,
    Optional,
    Space,
    /// content
    String(String),
    Char(char),
    /// in case we can not identify token at the moment
    Text(String),
    DoubleColon,
    Number(usize, usize, char),
    Tab,
    Pipe,
    Ampersant,
}

#[derive(Debug, PartialEq, Clone, Copy, Eq, Structural)]
pub enum Operators {
    Add,
    Sub,
    Mul,
    Div,
    Mod,
    AddEq,
    SubEq,
    MulEq,
    DivEq,
    Equal,
    DoubleEq,
    NotEqual,
    LessEq,
    MoreEq,
    And,
    Or,
    Not,
}

/// A token as a mathematical value: the same variants as [`Tokens`], with
/// each string held as its sequence of characters.
pub enum TokenModel {
    Parenteses(bool),
    CurlyBracket(bool),
    SquareBracket(bool),
    AngleBracket(bool),
    Operator(Operators),
    Colon,
    Dot,
    Semicolon,
    Comma,
    Quotes,
    DoubleQuotes,
    Optional,
    Space,
    String(Seq<char>),
    Char(char),
    Text(Seq<char>),
    DoubleColon,
    Number(usize, usize, char),
    Tab,
    Pipe,
    Ampersant,
}

impl View for Tokens {
    type V = TokenModel;

    open spec fn view(&self) -> TokenModel {
        match self {
            Tokens::Parenteses(b) => TokenModel::Parenteses(*b),
            Tokens::CurlyBracket(b) => TokenModel::CurlyBracket(*b),
            Tokens::SquareBracket(b) => TokenModel::SquareBracket(*b),
            Tokens::AngleBracket(b) => TokenModel::AngleBracket(*b),
            Tokens::Operator(o) => TokenModel::Operator(*o),
            Tokens::Colon => TokenModel::Colon,
            Tokens::Dot => TokenModel::Dot,
            Tokens::Semicolon => TokenModel::Semicolon,
            Tokens::Comma => TokenModel::Comma,
            Tokens::Quotes => TokenModel::Quotes,
            Tokens::DoubleQuotes => TokenModel::DoubleQuotes,
            Tokens::Optional => TokenModel::Optional,
            Tokens::Space => TokenModel::Space,
            Tokens::String(s) => TokenModel::String(s@),
            Tokens::Char(c) => TokenModel::Char(*c),
            Tokens::Text(s) => TokenModel::Text(s@),
            Tokens::DoubleColon => TokenModel::DoubleColon,
            Tokens::Number(a, b, c) => TokenModel::Number(*a, *b, *c),
            Tokens::Tab => TokenModel::Tab,
            Tokens::Pipe => TokenModel::Pipe,
            Tokens::Ampersant => TokenModel::Ampersant,
        }
    }
}

impl PartialEq for Tokens {
    fn eq(&self, other: &Self) -> (r: bool) {
        match (self, other) {
            (Tokens::Parenteses(a), Tokens::Parenteses(b)) => *a == *b,
            (Tokens::CurlyBracket(a), Tokens::CurlyBracket(b)) => *a == *b,
            (Tokens::SquareBracket(a), Tokens::SquareBracket(b)) => *a == *b,
            (Tokens::AngleBracket(a), Tokens::AngleBracket(b)) => *a == *b,
            (Tokens::Operator(a), Tokens::Operator(b)) => *a == *b,
            (Tokens::Char(a), Tokens::Char(b)) => *a == *b,
            (Tokens::String(a), Tokens::String(b)) => *a == *b,
            (Tokens::Text(a), Tokens::Text(b)) => *a == *b,
            (Tokens::Number(a, b, c), Tokens::Number(x, y, z)) => *a == *x && *b == *y && *c == *z,
            (Tokens::Colon, Tokens::Colon) => true,
            (Tokens::Dot, Tokens::Dot) => true,
            (Tokens::Semicolon, Tokens::Semicolon) => true,
            (Tokens::Comma, Tokens::Comma) => true,
            (Tokens::Quotes, Tokens::Quotes) => true,
            (Tokens::DoubleQuotes, Tokens::DoubleQuotes) => true,
            (Tokens::Optional, Tokens::Optional) => true,
            (Tokens::Space, Tokens::Space) => true,
            (Tokens::DoubleColon, Tokens::DoubleColon) => true,
            (Tokens::Tab, Tokens::Tab) => true,
            (Tokens::Pipe, Tokens::Pipe) => true,
            (Tokens::Ampersant, Tokens::Ampersant) => true,
            _ => false,
        }
    }
}

impl PartialEqSpecImpl for Tokens {
    open spec fn obeys_eq_spec() -> bool {
        true
    }

    open spec fn eq_spec(&self, other: &Self) -> bool {
        self@ == other@
    }
}

impl Clone for Tokens {
    fn clone(&self) -> (r: Self)
        ensures
            r == *self,
    {
        match self {
            Tokens::Parenteses(b) => Tokens::Parenteses(*b),
            Tokens::CurlyBracket(b) => Tokens::CurlyBracket(*b),
            Tokens::SquareBracket(b) => Tokens::SquareBracket(*b),
            Tokens::AngleBracket(b) => Tokens::AngleBracket(*b),
            Tokens::Operator(o) => Tokens::Operator(*o),
            Tokens::Colon => Tokens::Colon,
            Tokens::Dot => Tokens::Dot,
            Tokens::Semicolon => Tokens::Semicolon,
            Tokens::Comma => Tokens::Comma,
            Tokens::Quotes => Tokens::Quotes,
            Tokens::DoubleQuotes => Tokens::DoubleQuotes,
            Tokens::Optional => Tokens::Optional,
            Tokens::Space => Tokens::Space,
            Tokens::String(s) => Tokens::String(s.clone()),
            Tokens::Char(c) => Tokens::Char(*c),
            Tokens::Text(s) => Tokens::Text(s.clone()),
            Tokens::DoubleColon => Tokens::DoubleColon,
            Tokens::Number(a, b, c) => Tokens::Number(*a, *b, *c),
            Tokens::Tab => Tokens::Tab,
            Tokens::Pipe => Tokens::Pipe,
            Tokens::Ampersant => Tokens::Ampersant,
        }
    }
}

/// The token that a piece of text stands for: a single reserved character
/// names its own token, anything else is kept as text.
pub open spec fn token_of(s: Seq<char>) -> TokenModel {
    if s.len() == 1 {
        match s[0] {
            '+' => TokenModel::Operator(Operators::Add),
            '-' => TokenModel::Operator(Operators::Sub),
            '*' => TokenModel::Operator(Operators::Mul),
            '/' => TokenModel::Operator(Operators::Div),
            '=' => TokenModel::Operator(Operators::Equal),
            '%' => TokenModel::Operator(Operators::Mod),
            '&' => TokenModel::Ampersant,
            '|' => TokenModel::Pipe,
            '!' => TokenModel::Operator(Operators::Not),
            '?' => TokenModel::Optional,
            ';' => TokenModel::Semicolon,
            ':' => TokenModel::Colon,
            ',' => TokenModel::Comma,
            '.' => TokenModel::Dot,
            '"' => TokenModel::DoubleQuotes,
            '\'' => TokenModel::Quotes,
            '(' => TokenModel::Parenteses(false),
            ')' => TokenModel::Parenteses(true),
            '{' => TokenModel::CurlyBracket(false),
            '}' => TokenModel::CurlyBracket(true),
            '<' => TokenModel::AngleBracket(false),
            '>' => TokenModel::AngleBracket(true),
            '[' => TokenModel::SquareBracket(false),
            ']' => TokenModel::SquareBracket(true),
            ' ' => TokenModel::Space,
            _ => TokenModel::Text(s),
        }
    } else {
        TokenModel::Text(s)
    }
}

/// The token that `string` stands for (see [`token_of`]).
pub fn parse_token(string: &str) -> (t: Tokens)
    ensures
        t@ == token_of(string@),
{
    // +-*/=%;:,.({<[]>})&|!?"'\
    let cs = chars_of(string);
    if cs.len() == 1 {
        match cs[0] {
            '+' => Tokens::Operator(Operators::Add),
            '-' => Tokens::Operator(Operators::Sub),
            '*' => Tokens::Operator(Operators::Mul),
            '/' => Tokens::Operator(Operators::Div),
            '=' => Tokens::Operator(Operators::Equal),
            '%' => Tokens::Operator(Operators::Mod),
            '&' => Tokens::Ampersant,
            '|' => Tokens::Pipe,
            '!' => Tokens::Operator(Operators::Not),
            '?' => Tokens::Optional,
            ';' => Tokens::Semicolon,
            ':' => Tokens::Colon,
            ',' => Tokens::Comma,
            '.' => Tokens::Dot,
            '"' => Tokens::DoubleQuotes,
            '\'' => Tokens::Quotes,
            '(' => Tokens::Parenteses(false),
            ')' => Tokens::Parenteses(true),
            '{' => Tokens::CurlyBracket(false),
            '}' => Tokens::CurlyBracket(true),
            '<' => Tokens::AngleBracket(false),
            '>' => Tokens::AngleBracket(true),
            '[' => Tokens::SquareBracket(false),
            ']' => Tokens::SquareBracket(true),
            ' ' => Tokens::Space,
            _ => Tokens::Text(string.to_owned()),
        }
    } else {
        Tokens::Text(string.to_owned())
    }
}

/// The text that a token is written as; tokens without a written form give
/// the empty text.
pub open spec fn text_of(t: TokenModel) -> Seq<char> {
    match t {
        TokenModel::Operator(Operators::Add) => seq!['+'],
        TokenModel::Operator(Operators::Sub) => seq!['-'],
        TokenModel::Operator(Operators::Mul) => seq!['*'],
        TokenModel::Operator(Operators::Div) => seq!['/'],
        TokenModel::Operator(Operators::Equal) => seq!['='],
        TokenModel::Operator(Operators::Mod) => seq!['%'],
        TokenModel::Operator(Operators::And) => seq!['&', '&'],
        TokenModel::Operator(Operators::Or) => seq!['|', '|'],
        TokenModel::Ampersant => seq!['&'],
        TokenModel::Pipe => seq!['|'],
        TokenModel::Operator(Operators::Not) => seq!['!'],
        TokenModel::Optional => seq!['?'],
        TokenModel::Semicolon => seq![';'],
        TokenModel::Colon => seq![':'],
        TokenModel::Comma => seq![','],
        TokenModel::Dot => seq!['.'],
        TokenModel::DoubleQuotes => seq!['"'],
        TokenModel::Quotes => seq!['\''],
        TokenModel::Parenteses(b) => if b { seq![')'] } else { seq!['('] },
        TokenModel::CurlyBracket(b) => if b { seq!['}'] } else { seq!['{'] },
        TokenModel::AngleBracket(b) => if b { seq!['>'] } else { seq!['<'] },
        TokenModel::SquareBracket(b) => if b { seq![']'] } else { seq!['['] },
        TokenModel::Space => seq![' '],
        TokenModel::Text(s) => s,
        TokenModel::DoubleColon => seq![':', ':'],
        _ => seq![],
    }
}

/// Writes a token back as text. A number has no written form here and is not
/// accepted.
pub fn deparse_token(token: &Tokens) -> (s: String)
    requires
        !(token is Number),
    ensures
        s@ == text_of(token@),
{
    proof {
        reveal_strlit("+");
        reveal_strlit("-");
        reveal_strlit("*");
        reveal_strlit("/");
        reveal_strlit("=");
        reveal_strlit("%");
        reveal_strlit("&&");
        reveal_strlit("||");
        reveal_strlit("&");
        reveal_strlit("|");
        reveal_strlit("!");
        reveal_strlit("?");
        reveal_strlit(";");
        reveal_strlit(":");
        reveal_strlit(",");
        reveal_strlit(".");
        reveal_strlit("\"");
        reveal_strlit("'");
        reveal_strlit("(");
        reveal_strlit(")");
        reveal_strlit("{");
        reveal_strlit("}");
        reveal_strlit("<");
        reveal_strlit(">");
        reveal_strlit("[");
        reveal_strlit("]");
        reveal_strlit(" ");
        reveal_strlit("::");
        reveal_strlit("");
    }
    // +-*/=%;:,.({<[]>})&|!?"'\
    match token {
        Tokens::Operator(Operators::Add) => "+".to_owned(),
        Tokens::Operator(Operators::Sub) => "-".to_owned(),
        Tokens::Operator(Operators::Mul) => "*".to_owned(),
        Tokens::Operator(Operators::Div) => "/".to_owned(),
        Tokens::Operator(Operators::Equal) => "=".to_owned(),
        Tokens::Operator(Operators::Mod) => "%".to_owned(),
        Tokens::Operator(Operators::And) => "&&".to_owned(),
        Tokens::Operator(Operators::Or) => "||".to_owned(),
        Tokens::Ampersant => "&".to_owned(),
        Tokens::Pipe => "|".to_owned(),
        Tokens::Operator(Operators::Not) => "!".to_owned(),
        Tokens::Optional => "?".to_owned(),
        Tokens::Semicolon => ";".to_owned(),
        Tokens::Colon => ":".to_owned(),
        Tokens::Comma => ",".to_owned(),
        Tokens::Dot => ".".to_owned(),
        Tokens::DoubleQuotes => "\"".to_owned(),
        Tokens::Quotes => "'".to_owned(),
        Tokens::Parenteses(false) => "(".to_owned(),
        Tokens::Parenteses(true) => ")".to_owned(),
        Tokens::CurlyBracket(false) => "{".to_owned(),
        Tokens::CurlyBracket(true) => "}".to_owned(),
        Tokens::AngleBracket(false) => "<".to_owned(),
        Tokens::AngleBracket(true) => ">".to_owned(),
        Tokens::SquareBracket(false) => "[".to_owned(),
        Tokens::SquareBracket(true) => "]".to_owned(),
        Tokens::Space => " ".to_owned(),
        Tokens::Text(string) => string.clone(),
        Tokens::DoubleColon => "::".to_owned(),
        _ => "".to_owned(),
    }
}

/// Index of the first character of `s` that satisfies `p`, or the length of
/// `s` when none does.
pub open spec fn first_where(s: Seq<char>, p: spec_fn(char) -> bool) -> nat
    decreases s.len(),
{
    if s.len() == 0 {
        0
    } else if p(s[0]) {
        0
    } else {
        1 + first_where(s.drop_first(), p)
    }
}

/// `first_where` is a position where no earlier character satisfies the
/// predicate, and the character there (if any) does.
pub proof fn lemma_first_where(s: Seq<char>, p: spec_fn(char) -> bool)
    ensures
        first_where(s, p) <= s.len(),
        forall|j: int| 0 <= j < first_where(s, p) ==> !p(#[trigger] s[j]),
        first_where(s, p) < s.len() ==> p(s[first_where(s, p) as int]),
    decreases s.len(),
{
    if s.len() > 0 && !p(s[0]) {
        lemma_first_where(s.drop_first(), p);
        assert forall|j: int| 0 <= j < first_where(s, p) implies !p(#[trigger] s[j]) by {
            if j > 0 {
                assert(s[j] == s.drop_first()[j - 1]);
            }
        }
    }
}

/// Only one position is as `lemma_first_where` describes.
pub proof fn lemma_first_where_unique(s: Seq<char>, p: spec_fn(char) -> bool, k: int)
    requires
        0 <= k <= s.len(),
        forall|j: int| 0 <= j < k ==> !p(#[trigger] s[j]),
        k < s.len() ==> p(s[k]),
    ensures
        first_where(s, p) == k,
{
    lemma_first_where(s, p);
    let f = first_where(s, p) as int;
    if f < k {
        assert(!p(s[f]));
    } else if k < f {
        assert(!p(s[k]));
    }
}

/// Whether `c` ends a piece of text when `stops` are the reserved characters.
pub open spec fn stops_at(stops: Seq<char>) -> spec_fn(char) -> bool {
    |c: char| stops.contains(c) || is_whitespace_char(c)
}

/// Number of characters of `s` before the first one in `stops` or the first
/// whitespace.
pub open spec fn first_stop(s: Seq<char>, stops: Seq<char>) -> nat {
    first_where(s, stops_at(stops))
}

/// What the search in [`find_ws_str`] looks for: one character, or any
/// whitespace character.
enum Pattern {
    Char(char),
    Whitespace,
}

impl Pattern {
    spec fn holds(self) -> spec_fn(char) -> bool {
        match self {
            Pattern::Char(c) => |x: char| x == c,
            Pattern::Whitespace => |x: char| is_whitespace_char(x),
        }
    }
}

/// Byte offset of the first character of `cs` that matches `pattern`.
fn find(cs: &Vec<char>, pattern: Pattern) -> (r: Option<usize>)
    requires
        byte_len(cs@) <= usize::MAX,
    ensures
        match r {
            Some(b) => first_where(cs@, pattern.holds()) < cs@.len() && b == byte_len(
                cs@.take(first_where(cs@, pattern.holds()) as int),
            ),
            None => first_where(cs@, pattern.holds()) == cs@.len(),
        },
{
    let mut i: usize = 0;
    let mut b: usize = 0;
    proof {
        assert(cs@.take(0) =~= Seq::<char>::empty());
    }
    while i < cs.len()
        invariant
            0 <= i <= cs@.len(),
            b == byte_len(cs@.take(i as int)),
            byte_len(cs@) <= usize::MAX,
            forall|j: int| 0 <= j < i ==> !pattern.holds()(#[trigger] cs@[j]),
        decreases cs@.len() - i,
    {
        let c = cs[i];
        let hit = match pattern {
            Pattern::Char(x) => c == x,
            Pattern::Whitespace => is_whitespace(c),
        };
        if hit {
            proof {
                lemma_first_where_unique(cs@, pattern.holds(), i as int);
            }
            return Some(b);
        }
        proof {
            lemma_byte_len_take(cs@, i as int, i + 1);
            lemma_byte_len_take(cs@, i + 1, cs@.len() as int);
        }
        b = b + char_width(c);
        i = i + 1;
    }
    proof {
        lemma_first_where_unique(cs@, pattern.holds(), cs@.len() as int);
    }
    None
}

/// Lowers `current` to `compared` where that is given and smaller.
fn compare(current: &mut usize, compared: Option<usize>)
    ensures
        *final(current) == match compared {
            Some(c) => if c < *old(current) {
                c
            } else {
                *old(current)
            },
            None => *old(current),
        },
{
    if let Some(compared) = compared {
        if compared < *current {
            *current = compared
        }
    }
}

/// Byte offset in `expression` of its first character that occurs in `str`
/// or is whitespace; the byte length of `expression` when there is none.
pub fn find_ws_str(expression: &str, str: &str) -> (idx: usize)
    ensures
        idx == byte_len(expression@.take(first_stop(expression@, str@) as int)),
{
    let cs = chars_of(expression);
    let stops = chars_of(str);
    let ghost s = expression@;
    let mut lowest_idx = byte_count(expression);
    let ghost mut m: int = s.len() as int;
    proof {
        assert(s.take(m) =~= s);
    }
    let mut i: usize = 0;
    while i < stops.len()
        invariant
            cs@ == s,
            stops@ == str@,
            byte_len(s) <= usize::MAX,
            0 <= i <= stops@.len(),
            0 <= m <= s.len(),
            lowest_idx == byte_len(s.take(m)),
            forall|j: int, t: int| 0 <= j < m && 0 <= t < i ==> s[j] != stops@[t],
            m < s.len() ==> exists|t: int| 0 <= t < i && s[m] == stops@[t],
        decreases stops@.len() - i,
    {
        let c = stops[i];
        let found = find(&cs, Pattern::Char(c));
        let ghost k = first_where(s, Pattern::Char(c).holds()) as int;
        proof {
            lemma_first_where(s, Pattern::Char(c).holds());
            if k < m {
                lemma_byte_len_take(s, k, m);
            } else {
                lemma_byte_len_take(s, m, k);
            }
        }
        let ghost new_m = if k < m { k } else { m };
        compare(&mut lowest_idx, found);
        proof {
            assert forall|j: int, t: int| 0 <= j < new_m && 0 <= t < i + 1 implies s[j]
                != stops@[t] by {
                if t == i {
                    assert(!Pattern::Char(c).holds()(s[j]));
                }
            }
            if new_m < s.len() {
                if k < m {
                    assert(Pattern::Char(c).holds()(s[k]));
                    assert(0 <= i < i + 1 && s[new_m] == stops@[i as int]);
                }
            }
            m = new_m;
        }
        i = i + 1;
    }
    let found = find(&cs, Pattern::Whitespace);
    let ghost k = first_where(s, Pattern::Whitespace.holds()) as int;
    proof {
        lemma_first_where(s, Pattern::Whitespace.holds());
        if k < m {
            lemma_byte_len_take(s, k, m);
        } else {
            lemma_byte_len_take(s, m, k);
        }
    }
    let ghost new_m = if k < m { k } else { m };
    compare(&mut lowest_idx, found);
    proof {
        let p = stops_at(str@);
        assert forall|j: int| 0 <= j < new_m implies !p(#[trigger] s[j]) by {
            assert(!Pattern::Whitespace.holds()(s[j]));
            if str@.contains(s[j]) {
                let t = choose|t: int| 0 <= t < str@.len() && str@[t] == s[j];
                assert(s[j] != stops@[t]);
            }
        }
        if new_m < s.len() {
            if k < m {
                assert(Pattern::Whitespace.holds()(s[k]));
            } else {
                let t = choose|t: int| 0 <= t < stops@.len() && s[m] == stops@[t];
                assert(str@.contains(s[m]));
            }
        }
        lemma_first_where_unique(s, p, new_m);
    }
    lowest_idx
}

/// Number of characters in the token that `s` starts with: the text before
/// the first reserved or whitespace character, or that character alone.
pub open spec fn token_len(s: Seq<char>) -> nat {
    if first_stop(s, reserved_chars()) == 0 {
        1
    } else {
        first_stop(s, reserved_chars())
    }
}

/// `s` starts a token that can be cut off at a character boundary: it is not
/// empty, and when its first character stands alone, that character takes one
/// byte.
pub open spec fn token_can_start(s: Seq<char>) -> bool {
    &&& s.len() > 0
    &&& first_stop(s, reserved_chars()) == 0 ==> (s[0] as u32) < 0x80
}

/// The first token of `line` and the number of bytes it takes.
pub fn get_token(line: &str) -> (r: (Tokens, usize))
    requires
        token_can_start(line@),
    ensures
        r.0@ == token_of(line@.take(token_len(line@) as int)),
        r.1 == byte_len(line@.take(token_len(line@) as int)),
{
    let ghost s = line@;
    proof {
        reveal_strlit(" +-*/=%;:,.({<[]>})&|!?\"'\\");
        assert(RESERVED_CHARS@ =~= reserved_chars());
        lemma_first_where(s, stops_at(reserved_chars()));
        let f = first_stop(s, reserved_chars()) as int;
        if f > 0 {
            lemma_byte_len_take(s, 0, f);
        } else {
            lemma_byte_len_take(s, 0, 1);
            lemma_encode_scalar_len(s[0]);
        }
        assert(s.take(0) =~= Seq::<char>::empty());
    }
    let len = find_ws_str(line, RESERVED_CHARS);
    let len = if len == 0 {
        1
    } else {
        len
    };
    let (str, _) = split_chars(line, Ghost(token_len(s) as int), len);
    let token = parse_token(str);
    (token, byte_count(str))
}

/// The pieces of text that `s` is cut into, one per token, in order.
pub open spec fn lex(s: Seq<char>) -> Seq<Seq<char>>
    decreases s.len(),
{
    if s.len() == 0 {
        Seq::empty()
    } else {
        proof {
            lemma_token_len(s);
        }
        seq![s.take(token_len(s) as int)] + lex(s.skip(token_len(s) as int))
    }
}

/// A text that is not empty starts with a token of at least one character.
pub proof fn lemma_token_len(s: Seq<char>)
    requires
        s.len() > 0,
    ensures
        1 <= token_len(s) <= s.len(),
{
    lemma_first_where(s, stops_at(reserved_chars()));
}

/// Column (in bytes) and line reached after the given pieces of text: a
/// newline moves to the start of the next line, anything else moves along the
/// line by its byte length.
pub open spec fn position_after(texts: Seq<Seq<char>>) -> (nat, nat)
    decreases texts.len(),
{
    if texts.len() == 0 {
        (0, 0)
    } else {
        let before = position_after(texts.drop_last());
        if texts.last() == seq!['\n'] {
            (0, before.1 + 1)
        } else {
            (before.0 + byte_len(texts.last()), before.1)
        }
    }
}

/// No character of `s` is whitespace that takes more than one byte.
pub open spec fn no_wide_whitespace(s: Seq<char>) -> bool {
    forall|i: int| 0 <= i < s.len() && is_whitespace_char(#[trigger] s[i]) ==> (s[i] as u32) < 0x80
}

proof fn lemma_reserved_ascii(c: char)
    requires
        reserved_chars().contains(c),
    ensures
        (c as u32) < 0x80,
{
    let i = choose|i: int| 0 <= i < reserved_chars().len() && reserved_chars()[i] == c;
    assert(0 <= i < 26);
}

/// Whether `token` is the text of a single line break.
fn is_newline(token: &Tokens) -> (r: bool)
    ensures
        r <==> token@ == TokenModel::Text(seq!['\n']),
{
    proof {
        reveal_strlit("\n");
        assert("\n"@ =~= seq!['\n']);
    }
    if let Tokens::Text(txt) = token {
        str_equals(txt.as_str(), "\n")
    } else {
        false
    }
}

/// Cuts `file` into tokens and records, for each token boundary, the column
/// (in bytes) and line reached there; the first entry is the start `(0, 0)`.
/// The tokens are returned as cut: there is no pass here that merges them
/// into larger tokens, and so no `format` flag and no list of errors from such
/// a pass.
pub fn parse(file: String) -> (r: (Vec<Tokens>, Vec<(usize, usize)>))
    requires
        no_wide_whitespace(file@),
    ensures
        r.0@.len() == lex(file@).len(),
        forall|k: int| 0 <= k < r.0@.len() ==> (#[trigger] r.0@[k])@ == token_of(lex(file@)[k]),
        r.1@.len() == lex(file@).len() + 1,
        forall|k: int|
            0 <= k < r.1@.len() ==> (#[trigger] r.1@[k]).0 == position_after(lex(file@).take(k)).0
                && r.1@[k].1 == position_after(lex(file@).take(k)).1,
{
    let file = file.as_str();
    let mut tokens: Vec<Tokens> = Vec::new();
    let mut text_pos: Vec<(usize, usize)> = vec![(0, 0)];
    let total = byte_count(file);
    let ghost s = file@;
    let ghost mut k: int = 0;
    let ghost mut done: Seq<Seq<char>> = Seq::empty();
    let mut i: usize = 0;
    proof {
        assert(s.take(0) =~= Seq::<char>::empty());
        assert(s.skip(0) =~= s);
        assert(done + lex(s) =~= lex(s));
        assert(done.take(0) =~= done);
    }
    while i < total
        invariant
            s == file@,
            total == byte_len(s),
            no_wide_whitespace(s),
            0 <= k <= s.len(),
            i == byte_len(s.take(k)),
            done + lex(s.skip(k)) == lex(s),
            done.len() <= k <= i,
            tokens@.len() == done.len(),
            forall|j: int| 0 <= j < done.len() ==> (#[trigger] tokens@[j])@ == token_of(done[j]),
            text_pos@.len() == done.len() + 1,
            forall|j: int|
                0 <= j <= done.len() ==> (#[trigger] text_pos@[j]).0 == position_after(
                    done.take(j),
                ).0 && text_pos@[j].1 == position_after(done.take(j)).1,
            position_after(done).0 <= i,
            position_after(done).1 <= done.len(),
        decreases total - i,
    {
        proof {
            lemma_byte_len_take(s, k, s.len() as int);
            assert(s.take(s.len() as int) =~= s);
        }
        let (_, rest) = split_chars(file, Ghost(k), i);
        let ghost r = rest@;
        proof {
            lemma_first_where(r, stops_at(reserved_chars()));
            if first_stop(r, reserved_chars()) == 0 {
                assert(r[0] == s[k]);
                if reserved_chars().contains(r[0]) {
                    lemma_reserved_ascii(r[0]);
                }
            }
            lemma_token_len(r);
        }
        let res = get_token(rest);
        let ghost n = token_len(r) as int;
        let ghost t = r.take(n);
        let last = text_pos[text_pos.len() - 1];
        proof {
            assert(done.take(done.len() as int) =~= done);
            assert(s.take(k + n) =~= s.take(k) + t);
            lemma_byte_len_take(s, k, k + n);
            lemma_byte_len_take(s, k + n, s.len() as int);
            assert(s.subrange(k, k + n) =~= t);
            crate::text::lemma_byte_len_ge_len(t);
        }
        let newline = is_newline(&res.0);
        proof {
            assert(token_of(seq!['\n']) == TokenModel::Text(seq!['\n']));
            if newline {
                assert(t == seq!['\n']);
            } else {
                assert(t != seq!['\n']);
            }
        }
        let next: (usize, usize) = if newline {
            (0, last.1 + 1)
        } else {
            (last.0 + res.1, last.1)
        };
        proof {
            assert(lex(r) == seq![t] + lex(r.skip(n)));
            assert(r.skip(n) =~= s.skip(k + n));
            assert(done + lex(r) =~= done.push(t) + lex(s.skip(k + n)));
            let d2 = done.push(t);
            assert(d2.drop_last() =~= done);
            if t == seq!['\n'] {
                assert(token_of(t) == TokenModel::Text(t));
            }
        }
        text_pos.push(next);
        tokens.push(res.0);
        i = i + res.1;
        proof {
            let d2 = done.push(t);
            assert forall|j: int| 0 <= j <= d2.len() implies (#[trigger] text_pos@[j]).0
                == position_after(d2.take(j)).0 && text_pos@[j].1 == position_after(
                d2.take(j),
            ).1 by {
                if j < d2.len() {
                    assert(d2.take(j) =~= done.take(j));
                } else {
                    assert(d2.take(j) =~= d2);
                    assert(text_pos@[j] == next);
                    assert(last == text_pos@[done.len() as int]);
                    assert(position_after(done.take(done.len() as int)) == position_after(done));
                    if t == seq!['\n'] {
                        assert(next.0 == 0 && next.1 == last.1 + 1);
                    } else {
                        assert(next.0 == last.0 + res.1 && next.1 == last.1);
                    }
                }
            }
            k = k + n;
            done = d2;
        }
    }
    proof {
        lemma_byte_len_take(s, k, s.len() as int);
        assert(s.skip(k) =~= Seq::<char>::empty());
        assert(done =~= lex(s));
    }
    (tokens, text_pos)
}

/// Writing a piece of text's token back gives the text: `deparse_token`
/// undoes `parse_token` on every input.
pub proof fn lemma_deparse_parse_token(s: Seq<char>)
    ensures
        text_of(token_of(s)) == s,
{
    if s.len() == 1 {
        assert(seq![s[0]] =~= s);
    }
}

/// A token other than text whose written form is one character, or a piece of
/// text that does not spell another token, is read back as itself: `parse_token` undoes
/// `deparse_token` on them.
pub proof fn lemma_parse_deparse_token(t: TokenModel)
    requires
        (text_of(t).len() == 1 && !(t is Text)) || (t matches TokenModel::Text(x) && token_of(x)
            == t),
    ensures
        token_of(text_of(t)) == t,
{
    if !(t is Text) {
        let c = text_of(t)[0];
        assert(text_of(t) =~= seq![c]);
    }
}

/// The pieces that `lex` cuts `s` into are not empty, each is a single
/// reserved or whitespace character or a run of other characters that the
/// next piece (if any) does not continue, and joined in order they give back
/// `s`.
pub proof fn lemma_lex_pieces(s: Seq<char>)
    ensures
        lex(s).flatten() == s,
        forall|i: int|
            0 <= i < lex(s).len() ==> {
                let t = #[trigger] lex(s)[i];
                &&& t.len() > 0
                &&& (t.len() == 1 && stops_at(reserved_chars())(t[0])) || (forall|j: int|
                    0 <= j < t.len() ==> !stops_at(reserved_chars())(t[j]))
                &&& (i + 1 < lex(s).len() && !stops_at(reserved_chars())(t[0])) ==> stops_at(
                    reserved_chars(),
                )(lex(s)[i + 1][0])
            },
    decreases s.len(),
{
    if s.len() > 0 {
        let p = stops_at(reserved_chars());
        lemma_token_len(s);
        lemma_first_where(s, p);
        let n = token_len(s) as int;
        let rest = s.skip(n);
        lemma_lex_pieces(rest);
        let l = lex(s);
        assert(l == seq![s.take(n)] + lex(rest));
        assert(l.drop_first() =~= lex(rest));
        assert(s.take(n) + rest =~= s);
        assert forall|i: int| 0 <= i < l.len() implies {
            let t = #[trigger] l[i];
            &&& t.len() > 0
            &&& (t.len() == 1 && p(t[0])) || (forall|j: int| 0 <= j < t.len() ==> !p(t[j]))
            &&& (i + 1 < l.len() && !p(t[0])) ==> p(l[i + 1][0])
        } by {
            if i == 0 {
                let t = s.take(n);
                if first_stop(s, reserved_chars()) > 0 {
                    assert forall|j: int| 0 <= j < t.len() implies !p(t[j]) by {
                        assert(t[j] == s[j]);
                    }
                    if 1 < l.len() {
                        assert(l[1] == lex(rest)[0]);
                        lemma_token_len(rest);
                        assert(lex(rest)[0] == rest.take(token_len(rest) as int));
                        assert(lex(rest)[0][0] == s[n]);
                    }
                }
            } else {
                assert(l[i] == lex(rest)[i - 1]);
                if i + 1 < l.len() {
                    assert(l[i + 1] == lex(rest)[i]);
                }
            }
        }
    } else {
        assert(lex(s) =~= Seq::<Seq<char>>::empty());
        assert(s =~= Seq::<char>::empty());
    }
}

/// Writing back, in order, the tokens that a text is cut into gives the text.
pub proof fn lemma_tokens_write_back(s: Seq<char>)
    ensures
        lex(s).map_values(|t: Seq<char>| text_of(token_of(t))).flatten() == s,
{
    lemma_lex_pieces(s);
    let l = lex(s);
    let back = l.map_values(|t: Seq<char>| text_of(token_of(t)));
    assert forall|i: int| 0 <= i < l.len() implies back[i] == l[i] by {
        lemma_deparse_parse_token(l[i]);
    }
    assert(back =~= l);
}

/// Number of line breaks in `s`.
pub open spec fn count_newlines(s: Seq<char>) -> nat
    decreases s.len(),
{
    if s.len() == 0 {
        0
    } else {
        count_newlines(s.drop_last()) + if s.last() == '\n' {
            1nat
        } else {
            0nat
        }
    }
}

/// The characters of `s` after its last line break (all of `s` when it has
/// none).
pub open spec fn after_last_newline(s: Seq<char>) -> Seq<char>
    decreases s.len(),
{
    if s.len() == 0 {
        s
    } else if s.last() == '\n' {
        Seq::empty()
    } else {
        after_last_newline(s.drop_last()).push(s.last())
    }
}

proof fn lemma_append_no_newline(x: Seq<char>, t: Seq<char>)
    requires
        !t.contains('\n'),
    ensures
        count_newlines(x + t) == count_newlines(x),
        after_last_newline(x + t) == after_last_newline(x) + t,
    decreases t.len(),
{
    if t.len() == 0 {
        assert(x + t =~= x);
        assert(after_last_newline(x) + t =~= after_last_newline(x));
    } else {
        let t0 = t.drop_last();
        assert(!t0.contains('\n')) by {
            if t0.contains('\n') {
                let i = choose|i: int| 0 <= i < t0.len() && t0[i] == '\n';
                assert(t[i] == '\n');
            }
        }
        lemma_append_no_newline(x, t0);
        assert((x + t).drop_last() =~= x + t0);
        assert((x + t).last() == t.last());
        assert(t.last() != '\n') by {
            assert(t[t.len() - 1] == t.last());
        }
        assert(after_last_newline(x) + t =~= (after_last_newline(x) + t0).push(t.last()));
    }
}

/// Each piece of text is a line break on its own or holds none.
pub open spec fn newline_clean(t: Seq<char>) -> bool {
    t == seq!['\n'] || !t.contains('\n')
}

proof fn lemma_position_counts(texts: Seq<Seq<char>>)
    requires
        forall|i: int| 0 <= i < texts.len() ==> newline_clean(#[trigger] texts[i]),
    ensures
        position_after(texts) == (
            byte_len(after_last_newline(texts.flatten_alt())),
            count_newlines(texts.flatten_alt()),
        ),
    decreases texts.len(),
{
    if texts.len() == 0 {
        assert(texts.flatten_alt() =~= Seq::<char>::empty());
        assert(encode_utf8(Seq::<char>::empty()) =~= Seq::<u8>::empty());
    } else {
        let init = texts.drop_last();
        let t = texts.last();
        assert forall|i: int| 0 <= i < init.len() implies newline_clean(#[trigger] init[i]) by {
            assert(init[i] == texts[i]);
        }
        lemma_position_counts(init);
        let x = init.flatten_alt();
        assert(newline_clean(texts[texts.len() - 1]));
        if t == seq!['\n'] {
            assert((x + t).drop_last() =~= x);
            assert((x + t).last() == '\n');
        } else {
            lemma_append_no_newline(x, t);
            lemma_encode_concat(after_last_newline(x), t);
        }
    }
}

/// The position recorded after the first `k` tokens of `s` is the number of
/// bytes since the last line break before it and the number of line breaks
/// before it.
pub proof fn lemma_positions(s: Seq<char>, k: int)
    requires
        0 <= k <= lex(s).len(),
    ensures
        position_after(lex(s).take(k)) == (
            byte_len(after_last_newline(lex(s).take(k).flatten())),
            count_newlines(lex(s).take(k).flatten()),
        ),
        k == lex(s).len() ==> lex(s).take(k).flatten() == s,
{
    let l = lex(s);
    let texts = l.take(k);
    lemma_lex_pieces(s);
    assert forall|i: int| 0 <= i < texts.len() implies newline_clean(#[trigger] texts[i]) by {
        let t = l[i];
        assert(texts[i] == t);
        let p = stops_at(reserved_chars());
        assert(p('\n'));
        if t.len() == 1 && p(t[0]) {
            if t[0] == '\n' {
                assert(t =~= seq!['\n']);
            } else if t.contains('\n') {
                let j = choose|j: int| 0 <= j < t.len() && t[j] == '\n';
                assert(j == 0);
            }
        } else {
            if t.contains('\n') {
                let j = choose|j: int| 0 <= j < t.len() && t[j] == '\n';
                assert(!p(t[j]));
            }
        }
    }
    lemma_position_counts(texts);
    texts.lemma_flatten_and_flatten_alt_are_equivalent();
    if k == l.len() {
        assert(texts =~= l);
    }
}

} // verus!
