//! Rendering of a value tree to text.
//!
//! A value is first laid out as a sequence of pieces: structural
//! characters, keys, scalar texts, and the white space of pretty printing.
//! The text is the pieces one after the other, each as it is or, in a
//! colored configuration, wrapped in the escape sequences of its color.

use crate::json_array::JsonArray;
use crate::json_object::JsonObject;
use crate::json_value::{Json, JsonValue};
use crate::paint::{
    paint_black, paint_black_bold, paint_cyan_bold, paint_green_bold, paint_grey_bold,
    paint_red, paint_red_bold,
};
use crate::utils::{escape_text, replace_escape};
use vstd::prelude::*;
use vstd::string::StringExecFns;

verus! {

/// How a value is rendered.
pub struct BuildConfig<'a> {
    pretty: bool,
    indent: &'a str,
    check_nest: bool,
    colored: bool,
}

impl<'a> BuildConfig<'a> {
    /// Whether each element stands on a line of its own.
    pub closed spec fn is_pretty(&self) -> bool {
        self.pretty
    }

    /// The text that indents a line once per level of nesting.
    pub closed spec fn indent_text(&self) -> Seq<char> {
        self.indent@
    }

    /// Whether strings are searched for nested documents.
    pub closed spec fn checks_nest(&self) -> bool {
        self.check_nest
    }

    /// Whether the pieces are wrapped in color escape sequences.
    pub closed spec fn is_colored(&self) -> bool {
        self.colored
    }

    pub fn new(pretty: bool, indent: &'a str, check_nest: bool, colored: bool) -> (r: BuildConfig<
        'a,
    >)
        ensures
            r.is_pretty() == pretty,
            r.indent_text() == indent@,
            r.checks_nest() == check_nest,
            r.is_colored() == colored,
    {
        BuildConfig { pretty, indent, check_nest, colored }
    }

    /// The compact configuration: no line breaks, no indent, no color.
    pub fn default() -> (r: BuildConfig<'static>)
        ensures
            !r.is_pretty(),
            r.indent_text() == Seq::<char>::empty(),
            !r.checks_nest(),
            !r.is_colored(),
    {
        proof {
            reveal_strlit("");
            assert(""@ =~= Seq::<char>::empty());
        }
        BuildConfig { pretty: false, indent: "", check_nest: false, colored: false }
    }

    /// The pretty configuration: one element per line, indented by `"| "`
    /// per level, no color.
    pub fn pretty() -> (r: BuildConfig<'static>)
        ensures
            r.is_pretty(),
            r.indent_text() == "| "@,
            !r.checks_nest(),
            !r.is_colored(),
    {
        BuildConfig { pretty: true, indent: "| ", check_nest: false, colored: false }
    }
}

/// One piece of a rendered value.
pub enum Piece {
    /// White space of pretty printing: a line break, an indentation, the
    /// space behind a colon.
    Layout(Seq<char>),
    /// One of the structural characters `{ } [ ] " : ,`.
    Control(char),
    /// An object key, escaped.
    Key(Seq<char>),
    /// `null`, `true` or `false`.
    Keyword(Seq<char>),
    /// The text of a number.
    Number(Seq<char>),
    /// The content of a string, escaped.
    Text(Seq<char>),
}

/// One piece of a rendered value, as it is held while rendering.
pub enum Token {
    Layout(String),
    Control(char),
    Key(String),
    Keyword(String),
    Number(String),
    Text(String),
}

impl Token {
    pub open spec fn view(&self) -> Piece {
        match self {
            Token::Layout(s) => Piece::Layout(s@),
            Token::Control(c) => Piece::Control(*c),
            Token::Key(s) => Piece::Key(s@),
            Token::Keyword(s) => Piece::Keyword(s@),
            Token::Number(s) => Piece::Number(s@),
            Token::Text(s) => Piece::Text(s@),
        }
    }
}

/// The pieces that a sequence of tokens stands for.
pub open spec fn pieces_of(tokens: Seq<Token>) -> Seq<Piece> {
    Seq::new(tokens.len(), |i: int| tokens[i].view())
}

/// The text of a piece without color.
pub open spec fn plain(piece: Piece) -> Seq<char> {
    match piece {
        Piece::Layout(s) => s,
        Piece::Control(c) => seq![c],
        Piece::Key(s) => s,
        Piece::Keyword(s) => s,
        Piece::Number(s) => s,
        Piece::Text(s) => s,
    }
}

/// The texts one after the other.
pub open spec fn flat(parts: Seq<Seq<char>>) -> Seq<char>
    decreases parts.len(),
{
    if parts.len() == 0 {
        Seq::empty()
    } else {
        flat(parts.drop_last()) + parts.last()
    }
}

/// The plain texts of the pieces.
pub open spec fn plain_parts(pieces: Seq<Piece>) -> Seq<Seq<char>> {
    Seq::new(pieces.len(), |i: int| plain(pieces[i]))
}

/// The decimal digit `d` as a character.
pub open spec fn digit_char(d: nat) -> char {
    (48 + d) as char
}

/// The decimal digits of a natural number, without leading zeros.
pub open spec fn decimal(n: nat) -> Seq<char>
    decreases n,
{
    if n < 10 {
        seq![digit_char(n)]
    } else {
        decimal(n / 10).push(digit_char(n % 10))
    }
}

/// The decimal text of an integer: a minus sign where it is negative, then
/// its digits.
pub open spec fn int_text(i: int) -> Seq<char> {
    if i < 0 {
        seq!['-'] + decimal((-i) as nat)
    } else {
        decimal(i as nat)
    }
}

/// What stands before an element in pretty printing: a line break and the
/// indentation of the element.
pub open spec fn line_pieces(prefix: Seq<char>, pretty: bool) -> Seq<Piece> {
    if pretty {
        seq![Piece::Layout(seq!['\n']), Piece::Layout(prefix)]
    } else {
        Seq::empty()
    }
}

/// The pieces of a value whose containers are indented by `prefix`; the
/// elements of a container are indented by `prefix` and one more `indent`.
///
/// A container is its opening character, its elements in order with a comma
/// behind each but the last, and its closing character. In pretty printing
/// each element, and the closing character, stands on a line of its own,
/// and a space follows the colon of a member.
pub open spec fn pieces(v: Json, prefix: Seq<char>, pretty: bool, indent: Seq<char>) -> Seq<Piece>
    decreases v, 0nat,
{
    match v {
        Json::Null => seq![Piece::Keyword("null"@)],
        Json::Bool(b) => seq![
            Piece::Keyword(
                if b {
                    "true"@
                } else {
                    "false"@
                },
            ),
        ],
        Json::Int(i) => seq![Piece::Number(int_text(i as int))],
        Json::Uint(u) => seq![Piece::Number(int_text(u as int))],
        Json::Float(t) => seq![Piece::Number(t)],
        Json::String(s) => seq![
            Piece::Control('"'),
            Piece::Text(escape_text(s)),
            Piece::Control('"'),
        ],
        Json::Object(entries) => seq![Piece::Control('{')] + member_pieces(
            entries,
            entries.len(),
            prefix,
            pretty,
            indent,
        ) + line_pieces(prefix, pretty) + seq![Piece::Control('}')],
        Json::Array(items) => seq![Piece::Control('[')] + item_pieces(
            items,
            items.len(),
            prefix,
            pretty,
            indent,
        ) + line_pieces(prefix, pretty) + seq![Piece::Control(']')],
    }
}

/// The pieces of one member of an object.
pub open spec fn one_member(
    entries: Seq<(Seq<char>, Json)>,
    i: int,
    prefix: Seq<char>,
    pretty: bool,
    indent: Seq<char>,
) -> Seq<Piece>
    decreases entries, 0nat, 1nat,
{
    if 0 <= i < entries.len() {
        line_pieces(prefix + indent, pretty) + seq![
            Piece::Control('"'),
            Piece::Key(escape_text(entries[i].0)),
            Piece::Control('"'),
            Piece::Control(':'),
        ] + (if pretty {
            seq![Piece::Layout(seq![' '])]
        } else {
            Seq::empty()
        }) + pieces(entries[i].1, prefix + indent, pretty, indent) + (if i + 1 < entries.len() {
            seq![Piece::Control(',')]
        } else {
            Seq::empty()
        })
    } else {
        Seq::empty()
    }
}

/// The pieces of the first `n` members of an object.
pub open spec fn member_pieces(
    entries: Seq<(Seq<char>, Json)>,
    n: nat,
    prefix: Seq<char>,
    pretty: bool,
    indent: Seq<char>,
) -> Seq<Piece>
    decreases entries, n, 2nat,
{
    if n == 0 {
        Seq::empty()
    } else {
        member_pieces(entries, (n - 1) as nat, prefix, pretty, indent) + one_member(
            entries,
            n - 1,
            prefix,
            pretty,
            indent,
        )
    }
}

/// The pieces of one element of an array.
pub open spec fn one_item(
    items: Seq<Json>,
    i: int,
    prefix: Seq<char>,
    pretty: bool,
    indent: Seq<char>,
) -> Seq<Piece>
    decreases items, 0nat, 1nat,
{
    if 0 <= i < items.len() {
        line_pieces(prefix + indent, pretty) + pieces(items[i], prefix + indent, pretty, indent)
            + (if i + 1 < items.len() {
            seq![Piece::Control(',')]
        } else {
            Seq::empty()
        })
    } else {
        Seq::empty()
    }
}

/// The pieces of the first `n` elements of an array.
pub open spec fn item_pieces(
    items: Seq<Json>,
    n: nat,
    prefix: Seq<char>,
    pretty: bool,
    indent: Seq<char>,
) -> Seq<Piece>
    decreases items, n, 2nat,
{
    if n == 0 {
        Seq::empty()
    } else {
        item_pieces(items, (n - 1) as nat, prefix, pretty, indent) + one_item(
            items,
            n - 1,
            prefix,
            pretty,
            indent,
        )
    }
}

/// The text of a value without color.
pub open spec fn render(v: Json, pretty: bool, indent: Seq<char>) -> Seq<char> {
    flat(plain_parts(pieces(v, Seq::empty(), pretty, indent)))
}

/// Appends the decimal digits of `n`.
fn push_decimal(out: &mut String, n: u128)
    ensures
        final(out)@ == old(out)@ + decimal(n as nat),
    decreases n,
{
    let ghost before = out@;
    if n >= 10 {
        push_decimal(out, n / 10);
    }
    let d: u8 = (n % 10) as u8;
    out.push((48 + d) as char);
    proof {
        if n >= 10 {
            assert((before + decimal((n / 10) as nat)).push(digit_char((n % 10) as nat)) =~= before
                + decimal((n / 10) as nat).push(digit_char((n % 10) as nat)));
        } else {
            assert(before.push(digit_char(n as nat)) =~= before + seq![digit_char(n as nat)]);
        }
    }
}

/// The decimal text of an unsigned integer.
pub fn u128_text(n: u128) -> (r: String)
    ensures
        r@ == int_text(n as int),
{
    let mut out = String::new();
    push_decimal(&mut out, n);
    assert(Seq::<char>::empty() + decimal(n as nat) =~= decimal(n as nat));
    out
}

/// The decimal text of a signed integer.
pub fn i128_text(i: i128) -> (r: String)
    ensures
        r@ == int_text(i as int),
{
    if i >= 0 {
        u128_text(i as u128)
    } else {
        let mut out = String::new();
        out.push('-');
        let magnitude: u128 = if i == i128::MIN {
            0x8000_0000_0000_0000_0000_0000_0000_0000
        } else {
            (-i) as u128
        };
        push_decimal(&mut out, magnitude);
        assert(Seq::<char>::empty().push('-') =~= seq!['-']);
        out
    }
}

proof fn lemma_pieces_push(tokens: Seq<Token>, token: Token)
    ensures
        pieces_of(tokens.push(token)) == pieces_of(tokens) + seq![token.view()],
{
    assert(pieces_of(tokens.push(token)) =~= pieces_of(tokens) + seq![token.view()]);
}

/// Appends one token.
fn push_token(out: &mut Vec<Token>, token: Token)
    ensures
        pieces_of(final(out)@) == pieces_of(old(out)@) + seq![token.view()],
{
    proof {
        lemma_pieces_push(out@, token);
    }
    out.push(token);
}

/// Appends what stands before an element in pretty printing.
fn push_line(out: &mut Vec<Token>, prefix: &str, cfg: &BuildConfig)
    ensures
        pieces_of(final(out)@) == pieces_of(old(out)@) + line_pieces(prefix@, cfg.is_pretty()),
{
    let ghost before = pieces_of(out@);
    if cfg.pretty {
        proof {
            reveal_strlit("\n");
            assert("\n"@ =~= seq!['\n']);
        }
        push_token(out, Token::Layout("\n".to_owned()));
        push_token(out, Token::Layout(prefix.to_owned()));
        assert(before + seq![Piece::Layout(seq!['\n'])] + seq![Piece::Layout(prefix@)] =~= before
            + line_pieces(prefix@, true));
    } else {
        assert(before + Seq::<Piece>::empty() =~= before);
    }
}

/// The indentation of the elements of a container that is indented by
/// `prefix`.
fn inner_prefix(prefix: &str, cfg: &BuildConfig) -> (r: String)
    ensures
        r@ == prefix@ + cfg.indent_text(),
{
    let mut inner = prefix.to_owned();
    inner.append(cfg.indent);
    inner
}

/// Appends the pieces of a value.
pub fn build_value(value: &JsonValue, out: &mut Vec<Token>, prefix: &str, cfg: &BuildConfig)
    ensures
        pieces_of(final(out)@) == pieces_of(old(out)@) + pieces(
            value@,
            prefix@,
            cfg.is_pretty(),
            cfg.indent_text(),
        ),
    decreases value@, 0nat,
{
    let ghost before = pieces_of(out@);
    match value {
        JsonValue::Null => {
            push_token(out, Token::Keyword("null".to_owned()));
        },
        JsonValue::Bool(b) => {
            if *b {
                push_token(out, Token::Keyword("true".to_owned()));
            } else {
                push_token(out, Token::Keyword("false".to_owned()));
            }
        },
        JsonValue::Int(i) => {
            push_token(out, Token::Number(i128_text(*i)));
        },
        JsonValue::Uint(u) => {
            push_token(out, Token::Number(u128_text(*u)));
        },
        JsonValue::Float(t) => {
            push_token(out, Token::Number(t.clone()));
        },
        JsonValue::String(s) => {
            push_token(out, Token::Control('"'));
            push_token(out, Token::Text(replace_escape(s.as_str())));
            push_token(out, Token::Control('"'));
            assert(before + seq![Piece::Control('"')] + seq![Piece::Text(escape_text(s@))] + seq![
                Piece::Control('"'),
            ] =~= before + pieces(value@, prefix@, cfg.is_pretty(), cfg.indent_text()));
        },
        JsonValue::Array(array) => {
            proof {
                assert(decreases_to!(value@ => value@->Array_0));
            }
            build_array(array, out, prefix, cfg);
        },
        JsonValue::Object(object) => {
            proof {
                assert(decreases_to!(value@ => value@->Object_0));
            }
            build_object(object, out, prefix, cfg);
        },
    }
}

/// Appends the pieces of an object.
pub fn build_object(object: &JsonObject, out: &mut Vec<Token>, prefix: &str, cfg: &BuildConfig)
    ensures
        pieces_of(final(out)@) == pieces_of(old(out)@) + pieces(
            Json::Object(object@),
            prefix@,
            cfg.is_pretty(),
            cfg.indent_text(),
        ),
    decreases object@, 1nat,
{
    let ghost before = pieces_of(out@);
    let ghost entries = object@;
    let ghost pretty = cfg.is_pretty();
    let ghost indent = cfg.indent_text();
    push_token(out, Token::Control('{'));
    let pairs = object.pairs();
    let inner = inner_prefix(prefix, cfg);
    let mut index: usize = 0;
    assert(before + seq![Piece::Control('{')] + Seq::<Piece>::empty() =~= before + seq![
        Piece::Control('{'),
    ]);
    while index < pairs.len()
        invariant
            index <= pairs@.len(),
            pairs@.len() == entries.len(),
            entries == object@,
            pretty == cfg.is_pretty(),
            indent == cfg.indent_text(),
            inner@ == prefix@ + indent,
            forall|i: int|
                0 <= i < pairs@.len() ==> (#[trigger] pairs@[i]).0@ == entries[i].0 && pairs@[i].1@
                    == entries[i].1,
            pieces_of(out@) == before + seq![Piece::Control('{')] + member_pieces(
                entries,
                index as nat,
                prefix@,
                pretty,
                indent,
            ),
        decreases pairs@.len() - index,
    {
        let ghost done = pieces_of(out@);
        let key = pairs[index].0;
        let value = pairs[index].1;
        push_line(out, inner.as_str(), cfg);
        push_token(out, Token::Control('"'));
        push_token(out, Token::Key(replace_escape(key.as_str())));
        push_token(out, Token::Control('"'));
        push_token(out, Token::Control(':'));
        if cfg.pretty {
            proof {
                reveal_strlit(" ");
                assert(" "@ =~= seq![' ']);
            }
            push_token(out, Token::Layout(" ".to_owned()));
        }
        proof {
            assert(decreases_to!(entries => entries[index as int]));
            assert(decreases_to!(entries[index as int] => entries[index as int].1));
        }
        build_value(value, out, inner.as_str(), cfg);
        if index + 1 < pairs.len() {
            push_token(out, Token::Control(','));
        }
        proof {
            let member = one_member(entries, index as int, prefix@, pretty, indent);
            assert(pieces_of(out@) =~= done + member);
            assert(done + member =~= before + seq![Piece::Control('{')] + member_pieces(
                entries,
                (index + 1) as nat,
                prefix@,
                pretty,
                indent,
            ));
        }
        index = index + 1;
    }
    let ghost body = pieces_of(out@);
    push_line(out, prefix, cfg);
    push_token(out, Token::Control('}'));
    assert(body + line_pieces(prefix@, pretty) + seq![Piece::Control('}')] =~= before + pieces(
        Json::Object(entries),
        prefix@,
        pretty,
        indent,
    ));
}

/// Appends the pieces of an array.
pub fn build_array(array: &JsonArray, out: &mut Vec<Token>, prefix: &str, cfg: &BuildConfig)
    ensures
        pieces_of(final(out)@) == pieces_of(old(out)@) + pieces(
            Json::Array(array@),
            prefix@,
            cfg.is_pretty(),
            cfg.indent_text(),
        ),
    decreases array@, 1nat,
{
    let ghost before = pieces_of(out@);
    let ghost items = array@;
    let ghost pretty = cfg.is_pretty();
    let ghost indent = cfg.indent_text();
    push_token(out, Token::Control('['));
    let inner = inner_prefix(prefix, cfg);
    let count = array.len();
    let mut index: usize = 0;
    assert(before + seq![Piece::Control('[')] + Seq::<Piece>::empty() =~= before + seq![
        Piece::Control('['),
    ]);
    while index < count
        invariant
            index <= count,
            count == items.len(),
            items == array@,
            pretty == cfg.is_pretty(),
            indent == cfg.indent_text(),
            inner@ == prefix@ + indent,
            pieces_of(out@) == before + seq![Piece::Control('[')] + item_pieces(
                items,
                index as nat,
                prefix@,
                pretty,
                indent,
            ),
        decreases count - index,
    {
        let ghost done = pieces_of(out@);
        push_line(out, inner.as_str(), cfg);
        match array.get(index) {
            Some(item) => {
                proof {
                    assert(decreases_to!(items => items[index as int]));
                }
                build_value(item, out, inner.as_str(), cfg);
            },
            None => {},
        }
        if index + 1 < count {
            push_token(out, Token::Control(','));
        }
        proof {
            let item = one_item(items, index as int, prefix@, pretty, indent);
            assert(pieces_of(out@) =~= done + item);
            assert(done + item =~= before + seq![Piece::Control('[')] + item_pieces(
                items,
                (index + 1) as nat,
                prefix@,
                pretty,
                indent,
            ));
        }
        index = index + 1;
    }
    let ghost body = pieces_of(out@);
    push_line(out, prefix, cfg);
    push_token(out, Token::Control(']'));
    assert(body + line_pieces(prefix@, pretty) + seq![Piece::Control(']')] =~= before + pieces(
        Json::Array(items),
        prefix@,
        pretty,
        indent,
    ));
}

/// The text of a structural character: the character itself, or in a
/// colored configuration what its color makes of it. Brackets and braces
/// are bold red, quote, comma and colon bold grey.
pub fn control_text(ctl: char, colored: bool) -> (r: String)
    ensures
        !colored ==> r@ == seq![ctl],
{
    let mut text = String::new();
    text.push(ctl);
    assert(Seq::<char>::empty().push(ctl) =~= seq![ctl]);
    if !colored {
        text
    } else if ctl == '[' || ctl == ']' || ctl == '{' || ctl == '}' {
        paint_red_bold(text.as_str())
    } else if ctl == '"' || ctl == ',' || ctl == ':' {
        paint_grey_bold(text.as_str())
    } else {
        paint_black(text.as_str())
    }
}

/// The text of a key: the key itself, or in a colored configuration bold
/// green.
pub fn key_text(key: &str, colored: bool) -> (r: String)
    ensures
        !colored ==> r@ == key@,
{
    if colored {
        paint_green_bold(key)
    } else {
        key.to_owned()
    }
}

/// The text of a token: its plain text, or in a colored configuration what
/// its color makes of it. Keywords are bold black, numbers bold cyan,
/// string contents red; white space has no color.
pub fn token_text(token: &Token, colored: bool) -> (r: String)
    ensures
        !colored || token@ is Layout ==> r@ == plain(token@),
{
    match token {
        Token::Layout(s) => s.clone(),
        Token::Control(c) => control_text(*c, colored),
        Token::Key(s) => key_text(s.as_str(), colored),
        Token::Keyword(s) => if colored {
            paint_black_bold(s.as_str())
        } else {
            s.clone()
        },
        Token::Number(s) => if colored {
            paint_cyan_bold(s.as_str())
        } else {
            s.clone()
        },
        Token::Text(s) => if colored {
            paint_red(s.as_str())
        } else {
            s.clone()
        },
    }
}

/// Whether `parts` can be the texts of the pieces: one text for each piece,
/// which is the plain text of the piece where no color is used, and for
/// white space in any case.
pub open spec fn painted(pieces: Seq<Piece>, parts: Seq<Seq<char>>, colored: bool) -> bool {
    &&& parts.len() == pieces.len()
    &&& forall|i: int|
        0 <= i < pieces.len() && (!colored || pieces[i] is Layout) ==> #[trigger] parts[i] == plain(
            pieces[i],
        )
}

/// Without color the texts of the pieces are their plain texts.
pub proof fn lemma_painted_plain(pieces: Seq<Piece>, parts: Seq<Seq<char>>)
    requires
        painted(pieces, parts, false),
    ensures
        parts == plain_parts(pieces),
{
    assert(parts =~= plain_parts(pieces));
}

/// The texts of the tokens one after the other.
pub fn join_tokens(tokens: &Vec<Token>, colored: bool) -> (r: String)
    ensures
        exists|parts: Seq<Seq<char>>|
            painted(pieces_of(tokens@), parts, colored) && r@ == flat(parts),
        !colored ==> r@ == flat(plain_parts(pieces_of(tokens@))),
{
    let mut out = String::new();
    let ghost mut parts: Seq<Seq<char>> = Seq::empty();
    let mut index: usize = 0;
    while index < tokens.len()
        invariant
            index <= tokens@.len(),
            parts.len() == index,
            forall|i: int|
                0 <= i < index && (!colored || pieces_of(tokens@)[i] is Layout)
                    ==> #[trigger] parts[i] == plain(pieces_of(tokens@)[i]),
            out@ == flat(parts),
        decreases tokens@.len() - index,
    {
        let text = token_text(&tokens[index], colored);
        out.append(text.as_str());
        proof {
            let longer = parts.push(text@);
            assert(longer.drop_last() =~= parts);
            parts = longer;
        }
        index = index + 1;
    }
    proof {
        assert(painted(pieces_of(tokens@), parts, colored));
        if !colored {
            lemma_painted_plain(pieces_of(tokens@), parts);
        }
    }
    out
}

/// Rendering to JSON text.
pub trait ToJson {
    /// The value that is rendered.
    spec fn model(&self) -> Json;

    /// The pretty text: one element per line, indented by `"| "` per level.
    fn pretty(&self) -> (r: String)
        ensures
            r@ == render(self.model(), true, "| "@),
    ;

    /// The text under a configuration. In a colored configuration each
    /// piece but white space is what the terminal coloring makes of it.
    fn to_json(&self, cfg: &BuildConfig) -> (r: String)
        ensures
            !cfg.is_colored() ==> r@ == render(self.model(), cfg.is_pretty(), cfg.indent_text()),
            exists|parts: Seq<Seq<char>>|
                painted(
                    pieces(self.model(), Seq::empty(), cfg.is_pretty(), cfg.indent_text()),
                    parts,
                    cfg.is_colored(),
                ) && r@ == flat(parts),
    ;
}

/// The tokens of a value at the outermost level.
fn value_tokens(value: &JsonValue, cfg: &BuildConfig) -> (r: Vec<Token>)
    ensures
        pieces_of(r@) == pieces(value@, Seq::empty(), cfg.is_pretty(), cfg.indent_text()),
{
    let mut out: Vec<Token> = Vec::new();
    proof {
        reveal_strlit("");
        assert(""@ =~= Seq::<char>::empty());
        assert(pieces_of(out@) =~= Seq::<Piece>::empty());
    }
    build_value(value, &mut out, "", cfg);
    assert(Seq::<Piece>::empty() + pieces(
        value@,
        Seq::empty(),
        cfg.is_pretty(),
        cfg.indent_text(),
    ) =~= pieces(value@, Seq::empty(), cfg.is_pretty(), cfg.indent_text()));
    out
}

/// The tokens of an object at the outermost level.
fn object_tokens(object: &JsonObject, cfg: &BuildConfig) -> (r: Vec<Token>)
    ensures
        pieces_of(r@) == pieces(
            Json::Object(object@),
            Seq::empty(),
            cfg.is_pretty(),
            cfg.indent_text(),
        ),
{
    let mut out: Vec<Token> = Vec::new();
    proof {
        reveal_strlit("");
        assert(""@ =~= Seq::<char>::empty());
        assert(pieces_of(out@) =~= Seq::<Piece>::empty());
    }
    build_object(object, &mut out, "", cfg);
    assert(Seq::<Piece>::empty() + pieces(
        Json::Object(object@),
        Seq::empty(),
        cfg.is_pretty(),
        cfg.indent_text(),
    ) =~= pieces(Json::Object(object@), Seq::empty(), cfg.is_pretty(), cfg.indent_text()));
    out
}

/// The tokens of an array at the outermost level.
fn array_tokens(array: &JsonArray, cfg: &BuildConfig) -> (r: Vec<Token>)
    ensures
        pieces_of(r@) == pieces(
            Json::Array(array@),
            Seq::empty(),
            cfg.is_pretty(),
            cfg.indent_text(),
        ),
{
    let mut out: Vec<Token> = Vec::new();
    proof {
        reveal_strlit("");
        assert(""@ =~= Seq::<char>::empty());
        assert(pieces_of(out@) =~= Seq::<Piece>::empty());
    }
    build_array(array, &mut out, "", cfg);
    assert(Seq::<Piece>::empty() + pieces(
        Json::Array(array@),
        Seq::empty(),
        cfg.is_pretty(),
        cfg.indent_text(),
    ) =~= pieces(Json::Array(array@), Seq::empty(), cfg.is_pretty(), cfg.indent_text()));
    out
}

impl ToJson for JsonValue {
    open spec fn model(&self) -> Json {
        self.view()
    }

    fn pretty(&self) -> (r: String) {
        self.to_json(&BuildConfig::pretty())
    }

    fn to_json(&self, cfg: &BuildConfig) -> (r: String) {
        let tokens = value_tokens(self, cfg);
        join_tokens(&tokens, cfg.colored)
    }
}

impl ToJson for JsonObject {
    open spec fn model(&self) -> Json {
        Json::Object(self.view())
    }

    fn pretty(&self) -> (r: String) {
        self.to_json(&BuildConfig::pretty())
    }

    fn to_json(&self, cfg: &BuildConfig) -> (r: String) {
        let tokens = object_tokens(self, cfg);
        join_tokens(&tokens, cfg.colored)
    }
}

impl ToJson for JsonArray {
    open spec fn model(&self) -> Json {
        Json::Array(self.view())
    }

    fn pretty(&self) -> (r: String) {
        self.to_json(&BuildConfig::pretty())
    }

    fn to_json(&self, cfg: &BuildConfig) -> (r: String) {
        let tokens = array_tokens(self, cfg);
        join_tokens(&tokens, cfg.colored)
    }
}

impl JsonValue {
    /// The compact text of the value.
    pub fn to_string(&self) -> (r: String)
        ensures
            r@ == render(self@, false, Seq::empty()),
    {
        self.to_json(&BuildConfig::default())
    }
}

impl JsonObject {
    /// The compact text of the object.
    pub fn to_string(&self) -> (r: String)
        ensures
            r@ == render(Json::Object(self@), false, Seq::empty()),
    {
        self.to_json(&BuildConfig::default())
    }
}

impl JsonArray {
    /// The compact text of the array.
    pub fn to_string(&self) -> (r: String)
        ensures
            r@ == render(Json::Array(self@), false, Seq::empty()),
    {
        self.to_json(&BuildConfig::default())
    }
}

} // verus!
