use vstd::prelude::*;
use vstd::string::*;

verus! {

broadcast use vstd::std_specs::vec::group_vec_axioms, vstd::seq::group_seq_axioms;

/// A parsed Dent value.
///
/// Strings are owned copies of the text they were read from. A decimal
/// number keeps the digits it was written with: its reading as a binary
/// float is left to the caller. A dictionary keeps its entries in the order
/// in which their keys first appeared, and holds each key once when the
/// library built it.
#[derive(Debug, PartialEq)]
pub enum Value {
    Nil,
    Str(String),
    Int(i64),
    Float(String),
    Bool(bool),
    List(Vec<Value>),
    Dict(Vec<(String, Value)>),
}

/// The mathematical form of a [`Value`].
pub enum Model {
    Nil,
    Str(Seq<char>),
    Int(int),
    Float(Seq<char>),
    Bool(bool),
    List(Seq<Model>),
    Dict(Seq<(Seq<char>, Model)>),
}

impl Value {
    pub open spec fn view(&self) -> Model
        decreases self,
    {
        match self {
            Value::Nil => Model::Nil,
            Value::Str(s) => Model::Str(s@),
            Value::Int(i) => Model::Int(*i as int),
            Value::Float(t) => Model::Float(t@),
            Value::Bool(b) => Model::Bool(*b),
            Value::List(l) => Model::List(
                Seq::new(
                    l@.len(),
                    |i: int|
                        if 0 <= i < l@.len() {
                            l@[i].view()
                        } else {
                            Model::Nil
                        },
                ),
            ),
            Value::Dict(d) => Model::Dict(
                Seq::new(
                    d@.len(),
                    |i: int|
                        if 0 <= i < d@.len() {
                            (d@[i].0@, d@[i].1.view())
                        } else {
                            (Seq::empty(), Model::Nil)
                        },
                ),
            ),
        }
    }
}

/// The index of the first entry at or after `i` with key `k`, or -1 if
/// there is none.
pub open spec fn key_index_from<T>(es: Seq<(Seq<char>, T)>, k: Seq<char>, i: int) -> int
    decreases es.len() - i,
{
    if i < 0 || i >= es.len() {
        -1
    } else if es[i].0 == k {
        i
    } else {
        key_index_from(es, k, i + 1)
    }
}

/// The index of the first entry with key `k`, or -1 if there is none.
pub open spec fn key_index<T>(es: Seq<(Seq<char>, T)>, k: Seq<char>) -> int {
    key_index_from(es, k, 0)
}

/// Two entry sequences with the same keys in the same places.
pub open spec fn same_keys<T, U>(a: Seq<(Seq<char>, T)>, b: Seq<(Seq<char>, U)>) -> bool {
    a.len() == b.len() && forall|i: int| 0 <= i < a.len() ==> a[i].0 == b[i].0
}

/// Where the keys are the same, so is the index of every key.
pub proof fn lemma_same_keys_index<T, U>(a: Seq<(Seq<char>, T)>, b: Seq<(Seq<char>, U)>, k: Seq<char>)
    requires
        same_keys(a, b),
    ensures
        key_index(a, k) == key_index(b, k),
{
    lemma_key_index_bounds(a, k);
    lemma_key_index_bounds(b, k);
    let i = key_index(a, k);
    let j = key_index(b, k);
    if i >= 0 {
        assert(b[i].0 == k);
    }
    if j >= 0 {
        assert(a[j].0 == k);
    }
}

/// No key occurs twice among the entries.
pub open spec fn keys_unique<T>(es: Seq<(Seq<char>, T)>) -> bool {
    forall|i: int, j: int| 0 <= i < j < es.len() ==> es[i].0 != es[j].0
}

/// The entries with `k` bound to `v`: the entry of `k` is replaced where
/// there is one, else the pair is added at the end.
pub open spec fn dict_put<T>(es: Seq<(Seq<char>, T)>, k: Seq<char>, v: T) -> Seq<(Seq<char>, T)> {
    let j = key_index(es, k);
    if j >= 0 {
        es.update(j, (k, v))
    } else {
        es.push((k, v))
    }
}

/// The value bound to `k` among the entries: that of its first entry.
pub open spec fn entry_of<T>(es: Seq<(Seq<char>, T)>, k: Seq<char>) -> Option<T> {
    let j = key_index(es, k);
    if j >= 0 {
        Some(es[j].1)
    } else {
        None
    }
}

/// After binding `k` to `v`, `k` reads `v` and every other key reads what
/// it read before.
pub proof fn lemma_dict_put_entry_of<T>(es: Seq<(Seq<char>, T)>, k: Seq<char>, v: T, n: Seq<char>)
    ensures
        entry_of(dict_put(es, k, v), n) == if n == k {
            Some(v)
        } else {
            entry_of(es, n)
        },
{
    let r = dict_put(es, k, v);
    lemma_key_index_bounds(es, k);
    lemma_key_index_bounds(es, n);
    lemma_key_index_bounds(r, n);
    let j = key_index(es, k);
    let at = if j >= 0 {
        j
    } else {
        es.len() as int
    };
    assert(r[at].0 == k);
    let a = key_index(es, n);
    let b = key_index(r, n);
    if n == k {
        assert(b <= at);
        if b < at {
            assert(r[b] == es[b]);
        }
    } else {
        if a >= 0 {
            assert(r[a].0 == n);
            assert(b <= a);
            if b < a {
                assert(r[b] == es[b]);
            }
        }
        if b >= 0 {
            assert(b != at);
            assert(r[b] == es[b]);
            assert(a <= b);
        }
    }
}

/// What reading key `k` of `m` gives: the value bound to it in a
/// dictionary, else nil.
pub open spec fn model_get(m: Model, k: Seq<char>) -> Model {
    match m {
        Model::Dict(es) => {
            let j = key_index(es, k);
            if j >= 0 {
                es[j].1
            } else {
                Model::Nil
            }
        },
        _ => Model::Nil,
    }
}

/// What reading position `i` of `m` gives: the element there in a list,
/// else nil.
pub open spec fn model_at(m: Model, i: int) -> Model {
    match m {
        Model::List(vs) => if 0 <= i < vs.len() {
            vs[i]
        } else {
            Model::Nil
        },
        _ => Model::Nil,
    }
}

proof fn lemma_key_index_from<T>(es: Seq<(Seq<char>, T)>, k: Seq<char>, i: int)
    requires
        0 <= i <= es.len(),
    ensures
        key_index_from(es, k, i) == -1 || i <= key_index_from(es, k, i) < es.len(),
        key_index_from(es, k, i) >= 0 ==> es[key_index_from(es, k, i)].0 == k,
        key_index_from(es, k, i) >= 0 ==> forall|j: int|
            i <= j < key_index_from(es, k, i) ==> es[j].0 != k,
        key_index_from(es, k, i) < 0 ==> forall|j: int| i <= j < es.len() ==> es[j].0 != k,
    decreases es.len() - i,
{
    if i < es.len() && es[i].0 != k {
        lemma_key_index_from(es, k, i + 1);
    }
}

/// `key_index` is the first index with key `k`, and -1 exactly when no
/// entry has that key.
pub proof fn lemma_key_index_bounds<T>(es: Seq<(Seq<char>, T)>, k: Seq<char>)
    ensures
        -1 <= key_index(es, k) < es.len(),
        key_index(es, k) >= 0 ==> es[key_index(es, k)].0 == k,
        key_index(es, k) >= 0 ==> forall|i: int| 0 <= i < key_index(es, k) ==> es[i].0 != k,
        key_index(es, k) < 0 ==> forall|i: int| 0 <= i < es.len() ==> es[i].0 != k,
{
    lemma_key_index_from(es, k, 0);
}

/// Reading a key that a dictionary lacks, or any key of another value,
/// gives nil; so does reading a position outside a list, or any position of
/// another value.
pub proof fn lemma_missing_reads_nil(m: Model, k: Seq<char>, i: int)
    ensures
        !(m is Dict) ==> model_get(m, k) == Model::Nil,
        m is Dict && (forall|j: int| 0 <= j < m->Dict_0.len() ==> #[trigger] m->Dict_0[j].0 != k)
            ==> model_get(m, k) == Model::Nil,
        !(m is List) ==> model_at(m, i) == Model::Nil,
        m is List && !(0 <= i < m->List_0.len()) ==> model_at(m, i) == Model::Nil,
{
    if m is Dict {
        lemma_key_index_bounds(m->Dict_0, k);
        if forall|j: int| 0 <= j < m->Dict_0.len() ==> #[trigger] m->Dict_0[j].0 != k {
            if key_index(m->Dict_0, k) >= 0 {
                assert(m->Dict_0[key_index(m->Dict_0, k)].0 == k);
            }
        }
    }
}

/// Dictionary entries `es` with `k` bound to `v` keep their keys unique.
pub proof fn lemma_dict_put_unique<T>(es: Seq<(Seq<char>, T)>, k: Seq<char>, v: T)
    requires
        keys_unique(es),
    ensures
        keys_unique(dict_put(es, k, v)),
        key_index(dict_put(es, k, v), k) >= 0,
        dict_put(es, k, v)[key_index(dict_put(es, k, v), k)].1 == v,
{
    lemma_key_index_bounds(es, k);
    let r = dict_put(es, k, v);
    lemma_key_index_bounds(r, k);
    let at = if key_index(es, k) >= 0 {
        key_index(es, k)
    } else {
        es.len() as int
    };
    assert(r[at].0 == k);
    assert forall|i: int| 0 <= i < r.len() && r[i].0 == k implies r[i].1 == v by {
        if key_index(es, k) >= 0 {
            if i != key_index(es, k) {
                assert(es[i].0 == k);
            }
        } else {
            if i < es.len() {
                assert(es[i].0 == k);
            }
        }
    }
}

/// Joins a sequence of texts end to end.
pub open spec fn concat_all(parts: Seq<Seq<char>>) -> Seq<char>
    decreases parts.len(),
{
    if parts.len() == 0 {
        Seq::empty()
    } else {
        concat_all(parts.drop_last()) + parts.last()
    }
}

/// The decimal digits of a natural number.
pub open spec fn digits_of(n: nat) -> Seq<char>
    decreases n,
{
    if n < 10 {
        seq![digit_char(n)]
    } else {
        digits_of(n / 10).push(digit_char(n % 10))
    }
}

/// The character of a decimal digit.
pub open spec fn digit_char(d: nat) -> char {
    "0123456789"@[d as int]
}

/// An integer in decimal, with a leading `-` when it is negative.
pub open spec fn decimal_text(i: int) -> Seq<char> {
    if i < 0 {
        seq!['-'] + digits_of((-i) as nat)
    } else {
        digits_of(i as nat)
    }
}

/// The canonical text of a value: `none`; a string's own text; numbers in
/// decimal, a decimal number as it was written; `true` or `false`;
/// `[ v1 v2 ]`; `{ k1: v1 k2: v2 }` in entry order.
pub open spec fn render(m: Model) -> Seq<char>
    decreases m,
{
    match m {
        Model::Nil => "none"@,
        Model::Str(s) => s,
        Model::Int(i) => decimal_text(i),
        Model::Float(t) => t,
        Model::Bool(b) => if b {
            "true"@
        } else {
            "false"@
        },
        Model::List(vs) => "["@ + concat_all(item_texts(vs)) + " ]"@,
        Model::Dict(es) => "{"@ + concat_all(entry_texts(es)) + " }"@,
    }
}

/// The text of each list item, with the space before it.
pub open spec fn item_texts(vs: Seq<Model>) -> Seq<Seq<char>>
    decreases vs,
{
    Seq::new(
        vs.len(),
        |i: int|
            if 0 <= i < vs.len() {
                " "@ + render(vs[i])
            } else {
                Seq::empty()
            },
    )
}

/// The text of each dictionary entry, with the space before it.
pub open spec fn entry_texts(es: Seq<(Seq<char>, Model)>) -> Seq<Seq<char>>
    decreases es,
{
    Seq::new(
        es.len(),
        |i: int|
            if 0 <= i < es.len() {
                " "@ + es[i].0 + ": "@ + render(es[i].1)
            } else {
                Seq::empty()
            },
    )
}

/// The decimal digits of `n`.
fn digits(n: u64) -> (r: String)
    ensures
        r@ == digits_of(n as nat),
    decreases n,
{
    let table = "0123456789";
    proof {
        reveal_strlit("0123456789");
    }
    if n < 10 {
        String::from_str(table.substring_char(n as usize, n as usize + 1))
    } else {
        let mut r = digits(n / 10);
        let d = (n % 10) as usize;
        r.append(table.substring_char(d, d + 1));
        r
    }
}

/// `i` in decimal.
fn decimal(i: i64) -> (r: String)
    ensures
        r@ == decimal_text(i as int),
{
    if i < 0 {
        let m: u64 = if i == i64::MIN {
            9223372036854775808u64
        } else {
            (-i) as u64
        };
        let mut r = String::from_str("-");
        proof {
            reveal_strlit("-");
        }
        let d = digits(m);
        r.append(d.as_str());
        r
    } else {
        digits(i as u64)
    }
}

impl Value {
    /// A copy of this value that shares nothing with it.
    pub fn duplicate(&self) -> (r: Value)
        ensures
            r@ == self@,
        decreases self@,
    {
        match self {
            Value::Nil => Value::Nil,
            Value::Str(s) => Value::Str(s.clone()),
            Value::Int(i) => Value::Int(*i),
            Value::Float(t) => Value::Float(t.clone()),
            Value::Bool(b) => Value::Bool(*b),
            Value::List(l) => {
                let mut out: Vec<Value> = Vec::new();
                let mut i: usize = 0;
                while i < l.len()
                    invariant
                        *self == Value::List(*l),
                        i <= l@.len(),
                        out@.len() == i,
                        forall|j: int| 0 <= j < i ==> out@[j]@ == l@[j]@,
                    decreases l@.len() - i,
                {
                    proof {
                        let m = self@->List_0;
                        assert(m[i as int] == l@[i as int]@);
                        assert(decreases_to!(m => m[i as int]));
                    }
                    out.push(l[i].duplicate());
                    i = i + 1;
                }
                let r = Value::List(out);
                assert(r@->List_0 =~= self@->List_0);
                r
            },
            Value::Dict(d) => {
                let mut out: Vec<(String, Value)> = Vec::new();
                let mut i: usize = 0;
                while i < d.len()
                    invariant
                        *self == Value::Dict(*d),
                        i <= d@.len(),
                        out@.len() == i,
                        forall|j: int|
                            0 <= j < i ==> out@[j].0@ == d@[j].0@ && out@[j].1@ == d@[j].1@,
                    decreases d@.len() - i,
                {
                    proof {
                        let m = self@->Dict_0;
                        assert(m[i as int].1 == d@[i as int].1@);
                        assert(decreases_to!(m => m[i as int]));
                    }
                    let e = &d[i];
                    out.push((e.0.clone(), e.1.duplicate()));
                    i = i + 1;
                }
                let r = Value::Dict(out);
                assert(r@->Dict_0 =~= self@->Dict_0);
                r
            },
        }
    }

    /// Reads key `key` of a dictionary: a copy of the value bound to it, or
    /// nil where the key is missing or this is no dictionary.
    pub fn get(&self, key: &str) -> (r: Value)
        ensures
            r@ == model_get(self@, key@),
    {
        match self {
            Value::Dict(d) => {
                let found = find_key(d, key);
                proof {
                    lemma_key_index_bounds(self@->Dict_0, key@);
                }
                match found {
                    Some(i) => {
                        proof {
                            assert(self@->Dict_0[i as int].0 == key@);
                        }
                        d[i].1.duplicate()
                    },
                    None => Value::Nil,
                }
            },
            _ => Value::Nil,
        }
    }

    /// Reads position `index` of a list: a copy of the element there, or nil
    /// where it is out of range or this is no list.
    pub fn get_index(&self, index: usize) -> (r: Value)
        ensures
            r@ == model_at(self@, index as int),
    {
        match self {
            Value::List(l) => {
                if index < l.len() {
                    l[index].duplicate()
                } else {
                    Value::Nil
                }
            },
            _ => Value::Nil,
        }
    }

    /// Binds `key` to `value` in a dictionary, replacing an entry with that
    /// key where there is one.
    pub fn set(&mut self, key: &str, value: Value)
        requires
            old(self)@ is Dict,
        ensures
            final(self)@ == Model::Dict(dict_put(old(self)@->Dict_0, key@, value@)),
            keys_unique(old(self)@->Dict_0) ==> keys_unique(final(self)@->Dict_0),
    {
        let ghost es = self@->Dict_0;
        let ghost v = value@;
        proof {
            lemma_key_index_bounds(es, key@);
        }
        let mut taken = Value::Nil;
        std::mem::swap(self, &mut taken);
        if let Value::Dict(mut d) = taken {
            let found = find_key(&d, key);
            let k = String::from_str(key);
            proof {
                assert(forall|j: int| 0 <= j < d@.len() ==> es[j].0 == (#[trigger] d@[j]).0@);
            }
            match found {
                Some(i) => {
                    proof {
                        assert(es[i as int].0 == key@);
                        assert(key_index(es, key@) == i);
                    }
                    d.set(i, (k, value));
                },
                None => {
                    proof {
                        assert(key_index(es, key@) < 0);
                    }
                    d.push((k, value));
                },
            }
            *self = Value::Dict(d);
        }
        proof {
            let j = key_index(es, key@);
            let now = self@->Dict_0;
            let want = dict_put(es, key@, v);
            assert(now.len() == want.len());
            assert forall|x: int| 0 <= x < now.len() implies now[x] == want[x] by {
                if x < es.len() && x != j {
                    assert(now[x] == es[x]);
                }
            }
            assert(now =~= want);
            if keys_unique(es) {
                lemma_dict_put_unique(es, key@, v);
            }
        }
    }
}

impl Value {
    /// Replaces the item at position `index` of a list.
    pub fn set_index(&mut self, index: usize, value: Value)
        requires
            old(self)@ is List,
            index < old(self)@->List_0.len(),
        ensures
            final(self)@ == Model::List(old(self)@->List_0.update(index as int, value@)),
    {
        let ghost ms = self@->List_0;
        let ghost v = value@;
        let mut taken = Value::Nil;
        std::mem::swap(self, &mut taken);
        if let Value::List(mut l) = taken {
            l.set(index, value);
            *self = Value::List(l);
        }
        proof {
            assert(self@->List_0 =~= ms.update(index as int, v));
        }
    }
}

/// The first index of `d` whose key is `key`, if there is one.
fn find_key(d: &Vec<(String, Value)>, key: &str) -> (r: Option<usize>)
    ensures
        match r {
            Some(i) => i < d@.len() && d@[i as int].0@ == key@ && forall|j: int|
                0 <= j < i ==> d@[j].0@ != key@,
            None => forall|j: int| 0 <= j < d@.len() ==> d@[j].0@ != key@,
        },
{
    let mut i: usize = 0;
    while i < d.len()
        invariant
            i <= d@.len(),
            forall|j: int| 0 <= j < i ==> d@[j].0@ != key@,
        decreases d@.len() - i,
    {
        if spells(d[i].0.as_str(), key) {
            return Some(i);
        }
        i = i + 1;
    }
    None
}

impl Value {
    /// The text of a string value.
    pub fn as_str(&self) -> (r: Option<&str>)
        ensures
            match self@ {
                Model::Str(x) => r is Some && r->Some_0@ == x,
                _ => r is None,
            },
    {
        match self {
            Value::Str(s) => Some(s.as_str()),
            _ => None,
        }
    }

    /// The number of an integer value.
    pub fn as_int(&self) -> (r: Option<i64>)
        ensures
            match self@ {
                Model::Int(i) => r == Some(i as i64) && i == r->Some_0 as int,
                _ => r is None,
            },
    {
        match self {
            Value::Int(i) => Some(*i),
            _ => None,
        }
    }

    /// The decimal text of a decimal value, as it was written.
    pub fn as_float(&self) -> (r: Option<&str>)
        ensures
            match self@ {
                Model::Float(x) => r is Some && r->Some_0@ == x,
                _ => r is None,
            },
    {
        match self {
            Value::Float(t) => Some(t.as_str()),
            _ => None,
        }
    }

    /// The truth value of a boolean value.
    pub fn as_bool(&self) -> (r: Option<bool>)
        ensures
            match self@ {
                Model::Bool(b) => r == Some(b),
                _ => r is None,
            },
    {
        match self {
            Value::Bool(b) => Some(*b),
            _ => None,
        }
    }

    /// The items of a list value.
    pub fn as_list(&self) -> (r: Option<&Vec<Value>>)
        ensures
            match self {
                Value::List(l) => r == Some(l),
                _ => r is None,
            },
    {
        match self {
            Value::List(l) => Some(l),
            _ => None,
        }
    }

    /// The entries of a dictionary value.
    pub fn as_dict(&self) -> (r: Option<&Vec<(String, Value)>>)
        ensures
            match self {
                Value::Dict(d) => r == Some(d),
                _ => r is None,
            },
    {
        match self {
            Value::Dict(d) => Some(d),
            _ => None,
        }
    }

    /// Whether this is nil.
    pub fn is_none(&self) -> (r: bool)
        ensures
            r == (self@ is Nil),
    {
        match self {
            Value::Nil => true,
            _ => false,
        }
    }

    /// Whether this is a string.
    pub fn is_str(&self) -> (r: bool)
        ensures
            r == (self@ is Str),
    {
        match self {
            Value::Str(_) => true,
            _ => false,
        }
    }

    /// Whether this is an integer.
    pub fn is_int(&self) -> (r: bool)
        ensures
            r == (self@ is Int),
    {
        match self {
            Value::Int(_) => true,
            _ => false,
        }
    }

    /// Whether this is a decimal number.
    pub fn is_float(&self) -> (r: bool)
        ensures
            r == (self@ is Float),
    {
        match self {
            Value::Float(_) => true,
            _ => false,
        }
    }

    /// Whether this is a boolean.
    pub fn is_bool(&self) -> (r: bool)
        ensures
            r == (self@ is Bool),
    {
        match self {
            Value::Bool(_) => true,
            _ => false,
        }
    }

    /// Whether this is a list.
    pub fn is_list(&self) -> (r: bool)
        ensures
            r == (self@ is List),
    {
        match self {
            Value::List(_) => true,
            _ => false,
        }
    }

    /// Whether this is a dictionary.
    pub fn is_dict(&self) -> (r: bool)
        ensures
            r == (self@ is Dict),
    {
        match self {
            Value::Dict(_) => true,
            _ => false,
        }
    }

    /// The number of items of a list or entries of a dictionary.
    pub fn len(&self) -> (r: Option<usize>)
        ensures
            match self@ {
                Model::List(vs) => r is Some && r->Some_0 as int == vs.len(),
                Model::Dict(es) => r is Some && r->Some_0 as int == es.len(),
                _ => r is None,
            },
    {
        match self {
            Value::List(l) => Some(l.len()),
            Value::Dict(d) => Some(d.len()),
            _ => None,
        }
    }

    /// Whether this is a list or a dictionary with nothing in it.
    pub fn is_empty(&self) -> (r: bool)
        ensures
            r == match self@ {
                Model::List(vs) => vs.len() == 0,
                Model::Dict(es) => es.len() == 0,
                _ => false,
            },
    {
        match self {
            Value::List(l) => l.len() == 0,
            Value::Dict(d) => d.len() == 0,
            _ => false,
        }
    }

    /// The canonical text of this value (see [`render`]).
    pub fn to_text(&self) -> (r: String)
        ensures
            r@ == render(self@),
        decreases self@,
    {
        proof {
            reveal_strlit("none");
            reveal_strlit("true");
            reveal_strlit("false");
            reveal_strlit("[");
            reveal_strlit(" ]");
            reveal_strlit("{");
            reveal_strlit(" }");
            reveal_strlit(" ");
            reveal_strlit(": ");
        }
        match self {
            Value::Nil => String::from_str("none"),
            Value::Str(s) => s.clone(),
            Value::Int(i) => decimal(*i),
            Value::Float(t) => t.clone(),
            Value::Bool(b) => if *b {
                String::from_str("true")
            } else {
                String::from_str("false")
            },
            Value::List(l) => {
                let ghost ms = self@->List_0;
                let ghost parts = item_texts(ms);
                let mut r = String::from_str("[");
                let mut i: usize = 0;
                while i < l.len()
                    invariant
                        i <= l@.len(),
                        ms == self@->List_0,
                        *self == Value::List(*l),
                        ms.len() == l@.len(),
                        forall|j: int| 0 <= j < ms.len() ==> #[trigger] ms[j] == l@[j]@,
                        parts == item_texts(ms),
                        r@ == "["@ + concat_all(parts.subrange(0, i as int)),
                    decreases l@.len() - i,
                {
                    proof {
                        assert(decreases_to!(ms => ms[i as int]));
                        assert(parts.subrange(0, i + 1).drop_last() == parts.subrange(0, i as int));
                    }
                    let item = l[i].to_text();
                    r.append(" ");
                    r.append(item.as_str());
                    i = i + 1;
                }
                assert(parts.subrange(0, i as int) == parts);
                r.append(" ]");
                r
            },
            Value::Dict(d) => {
                let ghost es = self@->Dict_0;
                let ghost parts = entry_texts(es);
                let mut r = String::from_str("{");
                let mut i: usize = 0;
                while i < d.len()
                    invariant
                        i <= d@.len(),
                        es == self@->Dict_0,
                        *self == Value::Dict(*d),
                        es.len() == d@.len(),
                        forall|j: int| 0 <= j < es.len() ==> #[trigger] es[j] == (d@[j].0@, d@[j].1@),
                        parts == entry_texts(es),
                        r@ == "{"@ + concat_all(parts.subrange(0, i as int)),
                    decreases d@.len() - i,
                {
                    proof {
                        assert(decreases_to!(es => es[i as int]));
                        assert(decreases_to!(es[i as int] => es[i as int].1));
                        assert(parts.subrange(0, i + 1).drop_last() == parts.subrange(0, i as int));
                    }
                    let e = &d[i];
                    let item = e.1.to_text();
                    r.append(" ");
                    r.append(e.0.as_str());
                    r.append(": ");
                    r.append(item.as_str());
                    i = i + 1;
                }
                assert(parts.subrange(0, i as int) == parts);
                r.append(" }");
                r
            },
        }
    }
}

/// Whether `s` spells the same text as `w`.
pub fn spells(s: &str, w: &str) -> (r: bool)
    ensures
        r == (s@ == w@),
{
    let n = s.unicode_len();
    if n != w.unicode_len() {
        return false;
    }
    let mut i: usize = 0;
    while i < n
        invariant
            n == s@.len() == w@.len(),
            i <= n,
            s@.subrange(0, i as int) == w@.subrange(0, i as int),
        decreases n - i,
    {
        if s.get_char(i) != w.get_char(i) {
            return false;
        }
        assert(s@.subrange(0, i + 1) == s@.subrange(0, i as int).push(s@[i as int]));
        assert(w@.subrange(0, i + 1) == w@.subrange(0, i as int).push(w@[i as int]));
        i = i + 1;
    }
    assert(s@ == s@.subrange(0, n as int));
    assert(w@ == w@.subrange(0, n as int));
    true
}

} // verus!
