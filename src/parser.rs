use vstd::prelude::*;

use crate::error::{Error, Fault};
use crate::merge::merge_model;
use crate::number::number_model;
use crate::tokenizer::{lemma_lex_progress, lex, lexeme_name, Lexed, Lexeme, Token, Tokenizer};
use crate::value::{dict_put, same_keys, Model, Value};

verus! {

broadcast use vstd::seq::group_seq_axioms;

/// What a piece of Dent text denotes before any function is applied: a
/// value, with `Call` where `@name argument` stands.
pub enum Tree {
    Nil,
    Str(Seq<char>),
    Int(int),
    Float(Seq<char>),
    Bool(bool),
    List(Seq<Tree>),
    Dict(Seq<(Seq<char>, Tree)>),
    Call(Seq<char>, Box<Tree>),
}

/// The outcome of parsing from a position: the tree and the position of
/// the token that follows it, or the fault.
pub enum Parsed {
    Done(Tree, int),
    Failed(Fault),
}

/// The tree of a plain value: a number span as [`number_model`] reads it.
pub open spec fn number_tree(t: Seq<char>) -> Parsed {
    match number_model(t) {
        Ok(Model::Int(i)) => Parsed::Done(Tree::Int(i), 0),
        Ok(_) => Parsed::Done(Tree::Float(t), 0),
        Err(n) => Parsed::Failed(Fault::InvalidNumber(n)),
    }
}

/// Whether the token lexed at `p` opens no value: a closing bracket or
/// brace, or a colon.
pub open spec fn stray(t: Lexeme) -> bool {
    t is CloseBracket || t is CloseBrace || t is Colon
}

/// Parsing one value of the text `s` whose current token is lexed from `p`;
/// `known` holds the names of the functions that `@` may call.
///
/// As each token is consumed the one after it is lexed, so a character that
/// starts no token fails the parse as soon as it follows a consumed token.
pub open spec fn parse_tree(s: Seq<char>, p: int, known: Set<Seq<char>>) -> Parsed
    decreases s.len() - p, 0int,
{
    match lex(s, p) {
        Lexed::Bad(c) => Parsed::Failed(Fault::UnexpectedChar(c)),
        Lexed::Tok(t, e) => if t is Eof {
            Parsed::Done(Tree::Nil, p)
        } else if stray(t) {
            Parsed::Failed(Fault::UnexpectedToken(lexeme_name(t)))
        } else if e <= p || s.len() < e {
            Parsed::Failed(Fault::UnexpectedEof)
        } else {
            match lex(s, e) {
                Lexed::Bad(c) => Parsed::Failed(Fault::UnexpectedChar(c)),
                Lexed::Tok(t2, e2) => match t {
                    Lexeme::At => match t2 {
                        Lexeme::Text(name) => if e2 <= e || s.len() < e2 {
                            Parsed::Failed(Fault::UnexpectedEof)
                        } else {
                            match lex(s, e2) {
                                Lexed::Bad(c) => Parsed::Failed(Fault::UnexpectedChar(c)),
                                Lexed::Tok(_, _) => if !known.contains(name) {
                                    Parsed::Failed(Fault::UnknownFunction(name))
                                } else {
                                    match parse_tree(s, e2, known) {
                                        Parsed::Done(arg, q) => Parsed::Done(
                                            Tree::Call(name, Box::new(arg)),
                                            q,
                                        ),
                                        Parsed::Failed(f) => Parsed::Failed(f),
                                    }
                                },
                            }
                        },
                        _ => Parsed::Failed(Fault::UnexpectedToken(lexeme_name(t2))),
                    },
                    Lexeme::Text(x) => Parsed::Done(Tree::Str(x), e),
                    Lexeme::Number(n) => match number_tree(n) {
                        Parsed::Done(v, _) => Parsed::Done(v, e),
                        Parsed::Failed(f) => Parsed::Failed(f),
                    },
                    Lexeme::Flag(b) => Parsed::Done(Tree::Bool(b), e),
                    Lexeme::Comment => parse_tree(s, e, known),
                    Lexeme::OpenBracket => parse_items(s, e, known, Seq::empty()),
                    _ => parse_entries(s, e, known, Seq::empty()),
                },
            }
        },
    }
}

/// Parsing the rest of a list whose items so far are `acc`, from the token
/// lexed at `p` up to and including its closing bracket.
pub open spec fn parse_items(s: Seq<char>, p: int, known: Set<Seq<char>>, acc: Seq<Tree>) -> Parsed
    decreases s.len() - p, 1int,
{
    match lex(s, p) {
        Lexed::Bad(c) => Parsed::Failed(Fault::UnexpectedChar(c)),
        Lexed::Tok(t, e) => if t is CloseBracket {
            match lex(s, e) {
                Lexed::Bad(c) => Parsed::Failed(Fault::UnexpectedChar(c)),
                Lexed::Tok(_, _) => Parsed::Done(Tree::List(acc), e),
            }
        } else if t is Eof {
            Parsed::Failed(Fault::UnexpectedEof)
        } else {
            match parse_tree(s, p, known) {
                Parsed::Done(v, q) => if q <= p || s.len() < q {
                    Parsed::Failed(Fault::UnexpectedEof)
                } else {
                    parse_items(s, q, known, acc.push(v))
                },
                Parsed::Failed(f) => Parsed::Failed(f),
            }
        },
    }
}

/// Parsing the rest of a dictionary whose entries so far are `acc`, from the
/// token lexed at `p` up to and including its closing brace. A key that
/// comes again replaces the value it had.
pub open spec fn parse_entries(
    s: Seq<char>,
    p: int,
    known: Set<Seq<char>>,
    acc: Seq<(Seq<char>, Tree)>,
) -> Parsed
    decreases s.len() - p, 1int,
{
    match lex(s, p) {
        Lexed::Bad(c) => Parsed::Failed(Fault::UnexpectedChar(c)),
        Lexed::Tok(t, e) => match t {
            Lexeme::CloseBrace => match lex(s, e) {
                Lexed::Bad(c) => Parsed::Failed(Fault::UnexpectedChar(c)),
                Lexed::Tok(_, _) => Parsed::Done(Tree::Dict(acc), e),
            },
            Lexeme::Eof => Parsed::Failed(Fault::UnexpectedEof),
            Lexeme::Text(k) => match lex(s, e) {
                Lexed::Bad(c) => Parsed::Failed(Fault::UnexpectedChar(c)),
                Lexed::Tok(t2, e2) => if t2 is Eof {
                    Parsed::Failed(Fault::UnexpectedEof)
                } else if !(t2 is Colon) {
                    Parsed::Failed(Fault::UnexpectedToken(lexeme_name(t2)))
                } else if e2 <= p {
                    Parsed::Failed(Fault::UnexpectedEof)
                } else {
                    match lex(s, e2) {
                        Lexed::Bad(c) => Parsed::Failed(Fault::UnexpectedChar(c)),
                        Lexed::Tok(_, _) => match parse_tree(s, e2, known) {
                            Parsed::Done(v, q) => if q <= p || s.len() < q {
                                Parsed::Failed(Fault::UnexpectedEof)
                            } else {
                                parse_entries(s, q, known, dict_put(acc, k, v))
                            },
                            Parsed::Failed(f) => Parsed::Failed(f),
                        },
                    }
                },
            },
            _ => Parsed::Failed(Fault::UnexpectedToken(lexeme_name(t))),
        },
    }
}

/// Parsing a whole text: its first token is lexed from the start.
pub open spec fn parse_text(s: Seq<char>, known: Set<Seq<char>>) -> Parsed {
    parse_tree(s, 0, known)
}

/// A value agrees with a tree: the same in every place, but where the tree
/// holds a call. A call of a name in `merges` (bound to the built-in merge)
/// stands for [`merge_model`] of a value that agrees with its argument; a
/// call of another function may give any value.
pub open spec fn conforms(m: Model, t: Tree, merges: Set<Seq<char>>) -> bool
    decreases t,
{
    match t {
        Tree::Call(name, arg) => merges.contains(name) ==> exists|a: Model|
            conforms(a, *arg, merges) && m == merge_model(a),
        Tree::Nil => m is Nil,
        Tree::Str(x) => m == Model::Str(x),
        Tree::Int(i) => m == Model::Int(i),
        Tree::Float(x) => m == Model::Float(x),
        Tree::Bool(b) => m == Model::Bool(b),
        Tree::List(ts) => m is List && m->List_0.len() == ts.len() && forall|i: int|
            0 <= i < ts.len() ==> conforms(#[trigger] m->List_0[i], ts[i], merges),
        Tree::Dict(es) => m is Dict && same_keys(m->Dict_0, es) && forall|i: int|
            0 <= i < es.len() ==> conforms(#[trigger] m->Dict_0[i].1, es[i].1, merges),
    }
}

/// Whether every call in the tree is of a name in `merges`, bound to the
/// built-in merge.
pub open spec fn merge_calls_only(t: Tree, merges: Set<Seq<char>>) -> bool
    decreases t,
{
    match t {
        Tree::Call(name, arg) => merges.contains(name) && merge_calls_only(*arg, merges),
        Tree::List(ts) => forall|i: int|
            0 <= i < ts.len() ==> merge_calls_only(#[trigger] ts[i], merges),
        Tree::Dict(es) => forall|i: int|
            0 <= i < es.len() ==> merge_calls_only(#[trigger] es[i].1, merges),
        _ => true,
    }
}

/// A tree whose only calls are of the built-in merge leaves no freedom:
/// two values that agree with it are the same value.
pub proof fn lemma_merge_only_determined(m1: Model, m2: Model, t: Tree, merges: Set<Seq<char>>)
    requires
        merge_calls_only(t, merges),
        conforms(m1, t, merges),
        conforms(m2, t, merges),
    ensures
        m1 == m2,
    decreases t,
{
    match t {
        Tree::Call(_, arg) => {
            let a1 = choose|a: Model| conforms(a, *arg, merges) && m1 == merge_model(a);
            let a2 = choose|a: Model| conforms(a, *arg, merges) && m2 == merge_model(a);
            lemma_merge_only_determined(a1, a2, *arg, merges);
        },
        Tree::List(ts) => {
            let a = m1->List_0;
            let b = m2->List_0;
            assert forall|i: int| 0 <= i < ts.len() implies a[i] == b[i] by {
                lemma_merge_only_determined(a[i], b[i], ts[i], merges);
            }
            assert(a =~= b);
        },
        Tree::Dict(es) => {
            let a = m1->Dict_0;
            let b = m2->Dict_0;
            assert forall|i: int| 0 <= i < es.len() implies a[i] == b[i] by {
                lemma_merge_only_determined(a[i].1, b[i].1, es[i].1, merges);
            }
            assert(a =~= b);
        },
        _ => {},
    }
}

/// Parsing a text whose only calls are of the built-in merge gives one
/// result however often and wherever it runs: any two results that agree
/// with the outcome are equal, so parses of one engine on several threads
/// match a sequential one.
pub proof fn lemma_merge_only_parses_agree(
    s: Seq<char>,
    known: Set<Seq<char>>,
    merges: Set<Seq<char>>,
    r1: Result<Value, Error>,
    r2: Result<Value, Error>,
)
    requires
        agrees(r1, parse_text(s, known), merges),
        agrees(r2, parse_text(s, known), merges),
        parse_text(s, known) is Done ==> merge_calls_only(parse_text(s, known)->Done_0, merges),
    ensures
        r1 is Ok <==> r2 is Ok,
        r1 is Ok ==> r1->Ok_0@ == r2->Ok_0@,
        r1 is Err ==> r1->Err_0@ == r2->Err_0@,
{
    if let Parsed::Done(t, _) = parse_text(s, known) {
        lemma_merge_only_determined(r1->Ok_0@, r2->Ok_0@, t, merges);
    }
}

/// What a parse call returned agrees with the outcome of parsing.
pub open spec fn agrees(r: Result<Value, Error>, o: Parsed, merges: Set<Seq<char>>) -> bool {
    match o {
        Parsed::Done(t, _) => r is Ok && conforms(r->Ok_0@, t, merges),
        Parsed::Failed(f) => r is Err && r->Err_0@ == f,
    }
}

/// A call of a function whose name is not known fails the parse with
/// `UnknownFunction` naming it, before its argument is read.
pub proof fn lemma_unknown_function(s: Seq<char>, p: int, known: Set<Seq<char>>, name: Seq<char>)
    requires
        0 <= p <= s.len(),
        lex(s, p) is Tok && lex(s, p)->Tok_0 == Lexeme::At,
        lex(s, lex(s, p)->Tok_1) is Tok && lex(s, lex(s, p)->Tok_1)->Tok_0 == Lexeme::Text(name),
        lex(s, lex(s, lex(s, p)->Tok_1)->Tok_1) is Tok,
        !known.contains(name),
    ensures
        parse_tree(s, p, known) == Parsed::Failed(Fault::UnknownFunction(name)),
{
    lemma_lex_progress(s, p);
    let e = lex(s, p)->Tok_1;
    lemma_lex_progress(s, e);
}

/// Whether every call in the tree names a function in `known`.
pub open spec fn calls_known(t: Tree, known: Set<Seq<char>>) -> bool
    decreases t,
{
    match t {
        Tree::Call(name, arg) => known.contains(name) && calls_known(*arg, known),
        Tree::List(ts) => forall|i: int| 0 <= i < ts.len() ==> calls_known(#[trigger] ts[i], known),
        Tree::Dict(es) => forall|i: int|
            0 <= i < es.len() ==> calls_known(#[trigger] es[i].1, known),
        _ => true,
    }
}

/// A parse that succeeds calls only known functions, at every depth: so
/// an unknown name anywhere in what the parser reads fails the whole parse,
/// and no partial value comes back.
pub proof fn lemma_success_calls_known(s: Seq<char>, p: int, known: Set<Seq<char>>)
    requires
        0 <= p <= s.len(),
    ensures
        parse_tree(s, p, known) is Done ==> calls_known(parse_tree(s, p, known)->Done_0, known),
    decreases s.len() - p, 0int,
{
    lemma_lex_progress(s, p);
    if let Lexed::Tok(t, e) = lex(s, p) {
        if !(t is Eof) && !stray(t) && p < e <= s.len() {
            lemma_lex_progress(s, e);
            if let Lexed::Tok(t2, e2) = lex(s, e) {
                match t {
                    Lexeme::At => {
                        if t2 is Text && e < e2 <= s.len() {
                            lemma_success_calls_known(s, e2, known);
                        }
                    },
                    Lexeme::Comment => {
                        lemma_success_calls_known(s, e, known);
                    },
                    Lexeme::OpenBracket => {
                        lemma_items_call_known(s, e, known, Seq::empty());
                    },
                    Lexeme::OpenBrace => {
                        lemma_entries_call_known(s, e, known, Seq::empty());
                    },
                    _ => {},
                }
            }
        }
    }
}

proof fn lemma_items_call_known(s: Seq<char>, p: int, known: Set<Seq<char>>, acc: Seq<Tree>)
    requires
        0 <= p <= s.len(),
        forall|i: int| 0 <= i < acc.len() ==> calls_known(#[trigger] acc[i], known),
    ensures
        parse_items(s, p, known, acc) is Done ==> calls_known(parse_items(s, p, known, acc)->Done_0, known),
    decreases s.len() - p, 1int,
{
    lemma_lex_progress(s, p);
    if let Lexed::Tok(t, e) = lex(s, p) {
        if !(t is CloseBracket) && !(t is Eof) {
            lemma_success_calls_known(s, p, known);
            if let Parsed::Done(v, q) = parse_tree(s, p, known) {
                if p < q <= s.len() {
                    let acc2 = acc.push(v);
                    assert forall|i: int| 0 <= i < acc2.len() implies calls_known(#[trigger] acc2[i], known) by {
                        if i < acc.len() {
                            assert(acc2[i] == acc[i]);
                        }
                    }
                    lemma_items_call_known(s, q, known, acc2);
                }
            }
        }
    }
}

proof fn lemma_entries_call_known(
    s: Seq<char>,
    p: int,
    known: Set<Seq<char>>,
    acc: Seq<(Seq<char>, Tree)>,
)
    requires
        0 <= p <= s.len(),
        forall|i: int| 0 <= i < acc.len() ==> calls_known(#[trigger] acc[i].1, known),
    ensures
        parse_entries(s, p, known, acc) is Done ==> calls_known(parse_entries(s, p, known, acc)->Done_0, known),
    decreases s.len() - p, 1int,
{
    lemma_lex_progress(s, p);
    if let Lexed::Tok(t, e) = lex(s, p) {
        if let Lexeme::Text(k) = t {
            lemma_lex_progress(s, e);
            if let Lexed::Tok(t2, e2) = lex(s, e) {
                if t2 is Colon && p < e2 <= s.len() {
                    lemma_success_calls_known(s, e2, known);
                    if let Parsed::Done(v, q) = parse_tree(s, e2, known) {
                        if p < q <= s.len() {
                            let acc2 = dict_put(acc, k, v);
                            crate::value::lemma_key_index_bounds(acc, k);
                            assert forall|i: int| 0 <= i < acc2.len() implies calls_known(#[trigger] acc2[i].1, known) by {
                                let j = crate::value::key_index(acc, k);
                                if j >= 0 {
                                    if i != j {
                                        assert(acc2[i] == acc[i]);
                                    }
                                } else if i < acc.len() {
                                    assert(acc2[i] == acc[i]);
                                }
                            }
                            lemma_entries_call_known(s, q, known, acc2);
                        }
                    }
                }
            }
        }
    }
}

/// A dictionary written in the text holds each key once: a key written
/// again replaces its earlier entry. A value that agrees with it has the
/// same keys, so it holds each key once too.
pub proof fn lemma_entries_keys_unique(
    s: Seq<char>,
    p: int,
    known: Set<Seq<char>>,
    acc: Seq<(Seq<char>, Tree)>,
    m: Model,
    merges: Set<Seq<char>>,
)
    requires
        0 <= p <= s.len(),
        crate::value::keys_unique(acc),
    ensures
        parse_entries(s, p, known, acc) is Done ==> parse_entries(s, p, known, acc)->Done_0 is Dict
            && crate::value::keys_unique(parse_entries(s, p, known, acc)->Done_0->Dict_0),
        parse_entries(s, p, known, acc) is Done && conforms(m, parse_entries(s, p, known, acc)->Done_0, merges)
            ==> crate::value::keys_unique(m->Dict_0),
    decreases s.len() - p,
{
    lemma_lex_progress(s, p);
    if let Lexed::Tok(t, e) = lex(s, p) {
        if let Lexeme::Text(k) = t {
            if let Lexed::Tok(t2, e2) = lex(s, e) {
                if t2 is Colon && p < e2 <= s.len() {
                    if let Parsed::Done(v, q) = parse_tree(s, e2, known) {
                        if p < q <= s.len() {
                            crate::value::lemma_dict_put_unique(acc, k, v);
                            lemma_entries_keys_unique(s, q, known, dict_put(acc, k, v), m, merges);
                        }
                    }
                }
            }
        }
    }
}

/// Whether the token lexed at `i` is `t` and ends at `q`.
pub open spec fn token_ends(s: Seq<char>, i: int, t: Lexeme, q: int) -> bool {
    lex(s, i) == Lexed::Tok(t, q)
}

/// Parsing stops within the text, at the start of a whole token: it never
/// stops inside a token or past the end. A list is consumed through its
/// closing bracket and a dictionary through its closing brace, so nested
/// values leave nothing of themselves behind.
pub proof fn lemma_parse_stops_at_token(s: Seq<char>, p: int, known: Set<Seq<char>>)
    requires
        0 <= p <= s.len(),
    ensures
        parse_tree(s, p, known) is Done ==> p <= parse_tree(s, p, known)->Done_1 <= s.len()
            && lex(s, parse_tree(s, p, known)->Done_1) is Tok,
        parse_tree(s, p, known) is Done && parse_tree(s, p, known)->Done_0 is List ==> exists|i: int|
            p <= i < parse_tree(s, p, known)->Done_1 && #[trigger] token_ends(
                s,
                i,
                Lexeme::CloseBracket,
                parse_tree(s, p, known)->Done_1,
            ),
        parse_tree(s, p, known) is Done && parse_tree(s, p, known)->Done_0 is Dict ==> exists|i: int|
            p <= i < parse_tree(s, p, known)->Done_1 && #[trigger] token_ends(
                s,
                i,
                Lexeme::CloseBrace,
                parse_tree(s, p, known)->Done_1,
            ),
    decreases s.len() - p, 0int,
{
    lemma_lex_progress(s, p);
    if let Lexed::Tok(t, e) = lex(s, p) {
        if !(t is Eof) && !stray(t) && p < e <= s.len() {
            lemma_lex_progress(s, e);
            if let Lexed::Tok(t2, e2) = lex(s, e) {
                match t {
                    Lexeme::At => {
                        if t2 is Text && e < e2 <= s.len() {
                            lemma_parse_stops_at_token(s, e2, known);
                        }
                    },
                    Lexeme::Comment => {
                        lemma_parse_stops_at_token(s, e, known);
                    },
                    Lexeme::OpenBracket => {
                        lemma_items_stop_at_token(s, e, known, Seq::empty());
                    },
                    Lexeme::OpenBrace => {
                        lemma_entries_stop_at_token(s, e, known, Seq::empty());
                    },
                    _ => {},
                }
            }
        }
    }
}

proof fn lemma_items_stop_at_token(s: Seq<char>, p: int, known: Set<Seq<char>>, acc: Seq<Tree>)
    requires
        0 <= p <= s.len(),
    ensures
        parse_items(s, p, known, acc) is Done ==> p <= parse_items(s, p, known, acc)->Done_1
            <= s.len() && lex(s, parse_items(s, p, known, acc)->Done_1) is Tok
            && parse_items(s, p, known, acc)->Done_0 is List && exists|i: int|
            p <= i < parse_items(s, p, known, acc)->Done_1 && #[trigger] token_ends(
                s,
                i,
                Lexeme::CloseBracket,
                parse_items(s, p, known, acc)->Done_1,
            ),
    decreases s.len() - p, 1int,
{
    lemma_lex_progress(s, p);
    if let Lexed::Tok(t, e) = lex(s, p) {
        if t is CloseBracket {
            lemma_lex_progress(s, e);
            assert(token_ends(s, p, Lexeme::CloseBracket, e));
        }
        if !(t is CloseBracket) && !(t is Eof) {
            lemma_parse_stops_at_token(s, p, known);
            if let Parsed::Done(v, q) = parse_tree(s, p, known) {
                if p < q <= s.len() {
                    lemma_items_stop_at_token(s, q, known, acc.push(v));
                }
            }
        }
    }
}

proof fn lemma_entries_stop_at_token(
    s: Seq<char>,
    p: int,
    known: Set<Seq<char>>,
    acc: Seq<(Seq<char>, Tree)>,
)
    requires
        0 <= p <= s.len(),
    ensures
        parse_entries(s, p, known, acc) is Done ==> p <= parse_entries(s, p, known, acc)->Done_1
            <= s.len() && lex(s, parse_entries(s, p, known, acc)->Done_1) is Tok
            && parse_entries(s, p, known, acc)->Done_0 is Dict && exists|i: int|
            p <= i < parse_entries(s, p, known, acc)->Done_1 && #[trigger] token_ends(
                s,
                i,
                Lexeme::CloseBrace,
                parse_entries(s, p, known, acc)->Done_1,
            ),
    decreases s.len() - p, 1int,
{
    lemma_lex_progress(s, p);
    if let Lexed::Tok(t, e) = lex(s, p) {
        if t is CloseBrace {
            lemma_lex_progress(s, e);
            assert(token_ends(s, p, Lexeme::CloseBrace, e));
        }
        if let Lexeme::Text(k) = t {
            lemma_lex_progress(s, e);
            if let Lexed::Tok(t2, e2) = lex(s, e) {
                if t2 is Colon && p < e2 <= s.len() {
                    lemma_parse_stops_at_token(s, e2, known);
                    if let Parsed::Done(v, q) = parse_tree(s, e2, known) {
                        if p < q <= s.len() {
                            lemma_entries_stop_at_token(s, q, known, dict_put(acc, k, v));
                        }
                    }
                }
            }
        }
    }
}

/// The tokenizer together with the token it read last, which is the next
/// one for the grammar to consume.
pub struct ParserState<'s> {
    tokenizer: Tokenizer<'s>,
    token: Token<'s>,
    at: Ghost<int>,
}

impl<'s> ParserState<'s> {
    /// The text being parsed.
    pub closed spec fn text(&self) -> Seq<char> {
        self.tokenizer.text()
    }

    /// The position from which the current token was lexed.
    pub closed spec fn at(&self) -> int {
        self.at@
    }

    /// The position after the current token.
    pub closed spec fn after(&self) -> int {
        self.tokenizer.pos()
    }

    /// The current token.
    pub closed spec fn current(&self) -> Lexeme {
        self.token@
    }

    /// The current token is the one lexed from `at`, and the tokenizer stands
    /// after it.
    pub closed spec fn wf(&self) -> bool {
        &&& self.tokenizer.wf()
        &&& 0 <= self.at@ <= self.text().len()
        &&& lex(self.text(), self.at@) == Lexed::Tok(self.token@, self.tokenizer.pos())
    }

    /// A well-formed state stands within its text, with the current token
    /// lexed from its position.
    pub proof fn lemma_wf(&self)
        requires
            self.wf(),
        ensures
            0 <= self.at() <= self.after() <= self.text().len(),
            lex(self.text(), self.at()) == Lexed::Tok(self.current(), self.after()),
    {
        self.tokenizer.lemma_pos_in_text();
        lemma_lex_progress(self.text(), self.at());
    }

    /// The current token.
    pub fn current_token(&self) -> (r: Token<'s>)
        ensures
            r@ == self.current(),
    {
        self.token
    }

    /// Starts parsing with the tokenizer's first token.
    pub fn new(mut tokenizer: Tokenizer<'s>) -> (r: Result<Self, Error>)
        requires
            tokenizer.wf(),
        ensures
            match lex(tokenizer.text(), tokenizer.pos()) {
                Lexed::Tok(_, _) => r is Ok && r->Ok_0.wf() && r->Ok_0.text() == tokenizer.text()
                    && r->Ok_0.at() == tokenizer.pos(),
                Lexed::Bad(c) => r is Err && r->Err_0 == Error::UnexpectedChar(c),
            },
    {
        let ghost start = tokenizer.pos();
        proof {
            tokenizer.lemma_pos_in_text();
        }
        match tokenizer.next() {
            Ok(token) => {
                Ok(ParserState { tokenizer, token, at: Ghost(start) })
            },
            Err(e) => Err(e),
        }
    }

    /// Consumes the current token and reads the one after it.
    pub fn next(&mut self) -> (r: Result<(), Error>)
        requires
            old(self).wf(),
        ensures
            final(self).text() == old(self).text(),
            match lex(old(self).text(), old(self).after()) {
                Lexed::Tok(_, _) => r is Ok && final(self).wf() && final(self).at()
                    == old(self).after(),
                Lexed::Bad(c) => r is Err && r->Err_0 == Error::UnexpectedChar(c),
            },
    {
        let ghost start = self.tokenizer.pos();
        proof {
            self.tokenizer.lemma_pos_in_text();
        }
        match self.tokenizer.next() {
            Ok(token) => {
                self.token = token;
                self.at = Ghost(start);
                Ok(())
            },
            Err(e) => Err(e),
        }
    }
}

} // verus!
