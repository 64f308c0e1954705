use vstd::prelude::*;
use vstd::string::*;

use crate::error::Error;
use crate::merge::{merge, merge_model};
use crate::number::number_value;
use crate::parser::{
    agrees, conforms, parse_entries, parse_items, parse_text, parse_tree, ParserState, Parsed, Tree,
};
use crate::tokenizer::{lemma_lex_progress, lemma_number_chars, Token, Tokenizer};
use crate::value::{
    dict_put, entry_of, key_index, lemma_dict_put_entry_of, lemma_key_index_bounds,
    lemma_same_keys_index, same_keys, spells, Model, Value,
};

verus! {

broadcast use vstd::std_specs::vec::group_vec_axioms, vstd::seq::group_seq_axioms;

/// An extension function, called from Dent text as `@name argument`.
///
/// It takes the parsed argument and gives the value that stands in the
/// call's place. Functions are shared by every parse of an engine, which may
/// run on several threads at once.
pub trait Function {
    fn call(&self, arg: &Value) -> Value;
}

/// What a name is bound to in a parser's registry.
pub enum Binding<F> {
    /// The built-in merge (see [`merge`]).
    Merge,
    /// A function registered by the caller.
    Custom(F),
}

/// A Dent parser: the registry of extension functions that `@` can call,
/// each name bound to one function.
pub struct Dent<F> {
    functions: Vec<(String, Binding<F>)>,
}

/// The name of the built-in merge function.
pub open spec fn merge_name() -> Seq<char> {
    "merge"@
}

/// The registry entries that a list of caller functions gives, in order.
pub open spec fn custom_entries<F>(fs: Seq<(String, F)>) -> Seq<(Seq<char>, Binding<F>)> {
    Seq::new(fs.len(), |i: int| (fs[i].0@, Binding::Custom(fs[i].1)))
}

/// The registry entries of a vector of named bindings.
pub open spec fn entries_of<F>(v: Seq<(String, Binding<F>)>) -> Seq<(Seq<char>, Binding<F>)> {
    Seq::new(v.len(), |i: int| (v[i].0@, v[i].1))
}

/// Entries whose values agree with trees, key by key.
pub open spec fn entries_conform(
    ms: Seq<(Seq<char>, Model)>,
    ts: Seq<(Seq<char>, Tree)>,
    merges: Set<Seq<char>>,
) -> bool {
    same_keys(ms, ts) && forall|i: int|
        0 <= i < ts.len() ==> conforms(#[trigger] ms[i].1, ts[i].1, merges)
}

/// Binding a key on both sides keeps entries agreeing.
pub proof fn lemma_put_conforms(
    ms: Seq<(Seq<char>, Model)>,
    ts: Seq<(Seq<char>, Tree)>,
    k: Seq<char>,
    m: Model,
    t: Tree,
    merges: Set<Seq<char>>,
)
    requires
        entries_conform(ms, ts, merges),
        conforms(m, t, merges),
    ensures
        entries_conform(dict_put(ms, k, m), dict_put(ts, k, t), merges),
{
    lemma_same_keys_index(ms, ts, k);
    lemma_key_index_bounds(ms, k);
}

impl<F: Function> Dent<F> {
    /// The registry, in order of first registration.
    pub closed spec fn bindings(&self) -> Seq<(Seq<char>, Binding<F>)> {
        entries_of(self.functions@)
    }

    /// What `name` is bound to.
    pub open spec fn function_of(&self, name: Seq<char>) -> Option<Binding<F>> {
        entry_of(self.bindings(), name)
    }

    /// Every name that `@` may call.
    pub open spec fn known(&self) -> Set<Seq<char>> {
        Set::new(|n: Seq<char>| self.function_of(n) is Some)
    }

    /// The names bound to the built-in merge.
    pub open spec fn merges(&self) -> Set<Seq<char>> {
        Set::new(|n: Seq<char>| self.function_of(n) == Some(Binding::<F>::Merge))
    }

    /// A parser with the given functions and without the built-in ones.
    /// Where a name is given twice, its first function is used.
    pub fn new(functions: Vec<(String, F)>) -> (r: Dent<F>)
        ensures
            r.bindings() == custom_entries(functions@),
    {
        let ghost all = custom_entries(functions@);
        let mut rest = functions;
        let mut out: Vec<(String, Binding<F>)> = Vec::new();
        while rest.len() > 0
            invariant
                entries_of(out@) + custom_entries(rest@) == all,
            decreases rest@.len(),
        {
            let ghost before = entries_of(out@);
            let ghost tail = custom_entries(rest@);
            let (name, f) = rest.remove(0);
            proof {
                assert(custom_entries(rest@) =~= tail.drop_first());
            }
            out.push((name, Binding::Custom(f)));
            proof {
                assert(entries_of(out@) =~= before.push(tail[0]));
                assert(before.push(tail[0]) + tail.drop_first() =~= before + tail);
            }
        }
        assert(custom_entries(rest@) =~= Seq::<(Seq<char>, Binding<F>)>::empty());
        assert(entries_of(out@) + custom_entries(rest@) =~= entries_of(out@));
        Dent { functions: out }
    }

    /// The index of the first entry of `name`.
    fn find(&self, name: &str) -> (r: Option<usize>)
        ensures
            match r {
                Some(i) => i < self.functions@.len() && i as int == key_index(self.bindings(), name@),
                None => key_index(self.bindings(), name@) < 0,
            },
    {
        let mut i: usize = 0;
        while i < self.functions.len()
            invariant
                i <= self.functions@.len(),
                forall|j: int| 0 <= j < i ==> self.functions@[j].0@ != name@,
            decreases self.functions@.len() - i,
        {
            if spells(self.functions[i].0.as_str(), name) {
                proof {
                    let es = self.bindings();
                    lemma_key_index_bounds(es, name@);
                    assert(es[i as int].0 == name@);
                    let k = key_index(es, name@);
                    if 0 <= k < i {
                        assert(es[k].0 == self.functions@[k].0@);
                    }
                }
                return Some(i);
            }
            i = i + 1;
        }
        proof {
            let es = self.bindings();
            lemma_key_index_bounds(es, name@);
            let k = key_index(es, name@);
            if k >= 0 {
                assert(es[k].0 == self.functions@[k].0@);
            }
        }
        None
    }

    /// Binds `name` to `b`, in place of what it was bound to before.
    fn insert(&mut self, name: &str, b: Binding<F>)
        ensures
            final(self).bindings() == dict_put(old(self).bindings(), name@, b),
    {
        let ghost es = self.bindings();
        let ghost bv = b;
        match self.find(name) {
            Some(i) => {
                self.functions.set(i, (String::from_str(name), b));
                proof {
                    assert(self.bindings() =~= es.update(i as int, (name@, bv)));
                }
            },
            None => {
                self.functions.push((String::from_str(name), b));
                proof {
                    assert(self.bindings() =~= es.push((name@, bv)));
                }
            },
        }
    }

    /// Adds the built-in function `merge`, which merges a list of lists or a
    /// list of dictionaries (see [`merge`]). It replaces a function of that
    /// name registered before, and one registered after replaces it.
    pub fn add_builtins(&mut self)
        ensures
            final(self).bindings() == dict_put(old(self).bindings(), merge_name(), Binding::Merge),
            final(self).function_of(merge_name()) == Some(Binding::<F>::Merge),
            forall|n: Seq<char>| n != merge_name() ==> #[trigger] final(self).function_of(n)
                == old(self).function_of(n),
    {
        proof {
            reveal_strlit("merge");
        }
        self.insert("merge", Binding::Merge);
        proof {
            assert forall|n: Seq<char>| true implies #[trigger] self.function_of(n) == if n == merge_name() {
                Some(Binding::<F>::Merge)
            } else {
                old(self).function_of(n)
            } by {
                lemma_dict_put_entry_of(old(self).bindings(), merge_name(), Binding::<F>::Merge, n);
            }
        }
    }

    /// Registers `function` under `name`, in place of what that name was
    /// bound to before.
    pub fn add_function(&mut self, name: &str, function: F)
        ensures
            final(self).bindings() == dict_put(old(self).bindings(), name@, Binding::Custom(function)),
            final(self).function_of(name@) == Some(Binding::Custom(function)),
            forall|n: Seq<char>| n != name@ ==> #[trigger] final(self).function_of(n)
                == old(self).function_of(n),
    {
        let ghost fv = function;
        self.insert(name, Binding::Custom(function));
        proof {
            assert forall|n: Seq<char>| true implies #[trigger] self.function_of(n) == if n == name@ {
                Some(Binding::Custom(fv))
            } else {
                old(self).function_of(n)
            } by {
                lemma_dict_put_entry_of(old(self).bindings(), name@, Binding::Custom(fv), n);
            }
        }
    }

    /// Applies the function bound to `name`, which is known, to `arg`.
    fn apply(&self, name: &str, arg: &Value) -> (r: Value)
        requires
            self.known().contains(name@),
        ensures
            self.merges().contains(name@) ==> r@ == merge_model(arg@),
    {
        proof {
            lemma_key_index_bounds(self.bindings(), name@);
        }
        match self.find(name) {
            Some(i) => match &self.functions[i].1 {
                Binding::Merge => merge(arg),
                Binding::Custom(f) => f.call(arg),
            },
            None => Value::Nil,
        }
    }

    /// Whether `@name` may call `name`.
    fn knows(&self, name: &str) -> (r: bool)
        ensures
            r == self.known().contains(name@),
    {
        self.find(name).is_some()
    }

    /// Parses Dent text into a value.
    ///
    /// The text's first value is parsed and what follows it is left unread.
    /// The result agrees with [`parse_text`]: it fails exactly when that
    /// fails, with the same error, and otherwise is the tree it gives, where
    /// each call stands replaced by what its function returned.
    pub fn parse(&self, input: &str) -> (r: Result<Value, Error>)
        ensures
            agrees(r, parse_text(input@, self.known()), self.merges()),
    {
        let tokenizer = Tokenizer::new(input);
        match ParserState::new(tokenizer) {
            Ok(mut state) => self.parse_value(&mut state),
            Err(e) => Err(e),
        }
    }

    fn parse_value<'s>(&self, state: &mut ParserState<'s>) -> (r: Result<Value, Error>)
        requires
            old(state).wf(),
        ensures
            agrees(r, parse_tree(old(state).text(), old(state).at(), self.known()), self.merges()),
            final(state).text() == old(state).text(),
            match parse_tree(old(state).text(), old(state).at(), self.known()) {
                Parsed::Done(_, q) => final(state).wf() && final(state).at() == q && old(state).at()
                    <= q && (old(state).at() < q || old(state).current() is Eof),
                Parsed::Failed(_) => true,
            },
        decreases old(state).text().len() - old(state).at(), 1int,
    {
        let ghost s = state.text();
        let ghost p = state.at();
        let ghost known = self.known();
        proof {
            state.lemma_wf();
            lemma_lex_progress(s, p);
            lemma_number_chars(s, p);
        }
        let tok = state.current_token();
        match tok {
            Token::Eof => {
                return Ok(Value::Nil);
            },
            Token::CloseBracket | Token::CloseBrace | Token::Colon => {
                return Err(Error::UnexpectedToken(tok.kind_name()));
            },
            _ => {},
        }
        match state.next() {
            Ok(()) => {},
            Err(e) => {
                return Err(e);
            },
        }
        proof {
            state.lemma_wf();
            lemma_lex_progress(s, state.at());
        }
        match tok {
            Token::At => {
                let name_tok = state.current_token();
                match name_tok {
                    Token::String(name) => {
                        match state.next() {
                            Ok(()) => {},
                            Err(e) => {
                                return Err(e);
                            },
                        }
                        if !self.knows(name) {
                            return Err(Error::UnknownFunction(String::from_str(name)));
                        }
                        let arg = match self.parse_value(state) {
                            Ok(v) => v,
                            Err(e) => {
                                return Err(e);
                            },
                        };
                        Ok(self.apply(name, &arg))
                    },
                    _ => Err(Error::UnexpectedToken(name_tok.kind_name())),
                }
            },
            Token::String(x) => {
                assert(p < state.at());
                Ok(Value::Str(String::from_str(x)))
            },
            Token::Number(n) => {
                assert(p < state.at());
                number_value(n)
            },
            Token::Bool(b) => {
                assert(p < state.at());
                Ok(Value::Bool(b))
            },
            Token::Comment => {
                let r = self.parse_value(state);
                assert(p < state.at() || r is Err);
                r
            },
            Token::OpenBracket => {
                let r = self.parse_list(state, Ghost(p));
                assert(p < state.at() || r is Err);
                r
            },
            _ => {
                let r = self.parse_dict(state, Ghost(p));
                assert(p < state.at() || r is Err);
                r
            },
        }
    }

    fn parse_list<'s>(&self, state: &mut ParserState<'s>, start: Ghost<int>) -> (r: Result<Value, Error>)
        requires
            old(state).wf(),
            start@ < old(state).at(),
        ensures
            agrees(r, parse_items(old(state).text(), old(state).at(), self.known(), Seq::empty()), self.merges()),
            final(state).text() == old(state).text(),
            match parse_items(old(state).text(), old(state).at(), self.known(), Seq::empty()) {
                Parsed::Done(_, q) => final(state).wf() && final(state).at() == q && old(state).at() < q,
                Parsed::Failed(_) => true,
            },
        decreases old(state).text().len() - start@, 0int,
    {
        let ghost s = state.text();
        let ghost p0 = state.at();
        let ghost known = self.known();
        let ghost target = parse_items(s, p0, known, Seq::empty());
        let mut items: Vec<Value> = Vec::new();
        let ghost mut acc: Seq<Tree> = Seq::empty();
        loop
            invariant
                state.wf(),
                state.text() == s,
                s == old(state).text(),
                p0 == old(state).at(),
                start@ < p0 <= state.at(),
                known == self.known(),
                parse_items(s, state.at(), known, acc) == target,
                target == parse_items(s, p0, known, Seq::empty()),
                items@.len() == acc.len(),
                forall|j: int| 0 <= j < acc.len() ==> conforms(#[trigger] items@[j]@, acc[j], self.merges()),
            decreases s.len() - state.at(),
        {
            proof {
                state.lemma_wf();
                lemma_lex_progress(s, state.at());
            }
            match state.current_token() {
                Token::CloseBracket => {
                    match state.next() {
                        Ok(()) => {},
                        Err(e) => {
                            return Err(e);
                        },
                    }
                    proof {
                        crate::merge::lemma_list_view(items);
                    }
                    return Ok(Value::List(items));
                },
                Token::Eof => {
                    return Err(Error::UnexpectedEof);
                },
                _ => {},
            }
            let ghost here = state.at();
            assert(!(state.current() is Eof) && !(state.current() is CloseBracket));
            let v = match self.parse_value(state) {
                Ok(v) => v,
                Err(e) => {
                    return Err(e);
                },
            };
            let ghost t = parse_tree(s, here, known)->Done_0;
            proof {
                state.lemma_wf();
                assert(parse_tree(s, here, known) is Done);
                assert(here < state.at());
            }
            items.push(v);
            proof {
                acc = acc.push(t);
            }
        }
    }

    fn parse_dict<'s>(&self, state: &mut ParserState<'s>, start: Ghost<int>) -> (r: Result<Value, Error>)
        requires
            old(state).wf(),
            start@ < old(state).at(),
        ensures
            agrees(r, parse_entries(old(state).text(), old(state).at(), self.known(), Seq::empty()), self.merges()),
            final(state).text() == old(state).text(),
            match parse_entries(old(state).text(), old(state).at(), self.known(), Seq::empty()) {
                Parsed::Done(_, q) => final(state).wf() && final(state).at() == q && old(state).at() < q,
                Parsed::Failed(_) => true,
            },
        decreases old(state).text().len() - start@, 0int,
    {
        let ghost s = state.text();
        let ghost p0 = state.at();
        let ghost known = self.known();
        let ghost target = parse_entries(s, p0, known, Seq::empty());
        let mut entries = Value::Dict(Vec::new());
        let ghost mut acc: Seq<(Seq<char>, Tree)> = Seq::empty();
        assert(entries@->Dict_0 =~= Seq::<(Seq<char>, Model)>::empty());
        loop
            invariant
                state.wf(),
                state.text() == s,
                s == old(state).text(),
                p0 == old(state).at(),
                start@ < p0 <= state.at(),
                known == self.known(),
                parse_entries(s, state.at(), known, acc) == target,
                target == parse_entries(s, p0, known, Seq::empty()),
                entries@ is Dict,
                entries_conform(entries@->Dict_0, acc, self.merges()),
            decreases s.len() - state.at(),
        {
            proof {
                state.lemma_wf();
                lemma_lex_progress(s, state.at());
            }
            let ghost here = state.at();
            let tok = state.current_token();
            match tok {
                Token::CloseBrace => {
                    match state.next() {
                        Ok(()) => {},
                        Err(e) => {
                            return Err(e);
                        },
                    }
                    return Ok(entries);
                },
                Token::Eof => {
                    return Err(Error::UnexpectedEof);
                },
                Token::String(k) => {
                    match state.next() {
                        Ok(()) => {},
                        Err(e) => {
                            return Err(e);
                        },
                    }
                    proof {
                        state.lemma_wf();
                        lemma_lex_progress(s, state.at());
                    }
                    let colon = state.current_token();
                    match colon {
                        Token::Colon => {},
                        Token::Eof => {
                            return Err(Error::UnexpectedEof);
                        },
                        _ => {
                            return Err(Error::UnexpectedToken(colon.kind_name()));
                        },
                    }
                    match state.next() {
                        Ok(()) => {},
                        Err(e) => {
                            return Err(e);
                        },
                    }
                    let ghost at_value = state.at();
                    proof {
                        state.lemma_wf();
                    }
                    let v = match self.parse_value(state) {
                        Ok(v) => v,
                        Err(e) => {
                            return Err(e);
                        },
                    };
                    let ghost t = parse_tree(s, at_value, known)->Done_0;
                    proof {
                        state.lemma_wf();
                        assert(parse_tree(s, at_value, known) is Done);
                        assert(here < at_value);
                        assert(at_value <= state.at());
                        assert(parse_entries(s, here, known, acc) == parse_entries(s, state.at(), known, dict_put(acc, k@, t)));
                        lemma_put_conforms(entries@->Dict_0, acc, k@, v@, t, self.merges());
                    }
                    entries.set(k, v);
                    proof {
                        acc = dict_put(acc, k@, t);
                    }
                },
                _ => {
                    return Err(Error::UnexpectedToken(tok.kind_name()));
                },
            }
        }
    }
}

impl<F: Function> Default for Dent<F> {
    /// A parser whose only function is the built-in `merge`. Reading files
    /// is left to the caller, who may register an `import` function.
    fn default() -> (r: Dent<F>)
        ensures
            r.function_of(merge_name()) == Some(Binding::<F>::Merge),
            forall|n: Seq<char>| n != merge_name() ==> #[trigger] r.function_of(n) is None,
    {
        let mut d = Dent::new(Vec::new());
        proof {
            assert forall|n: Seq<char>| #[trigger] d.function_of(n) is None by {
                lemma_key_index_bounds(d.bindings(), n);
            }
        }
        d.add_builtins();
        d
    }
}

} // verus!
