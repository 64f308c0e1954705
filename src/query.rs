use vstd::prelude::*;
use vstd::string::*;

use crate::number::decimal_value;
use crate::value::{model_at, model_get, render, Model, Value};

verus! {

broadcast use vstd::std_specs::vec::group_vec_axioms, vstd::seq::group_seq_axioms;

/// One step of a query path.
pub enum QueryPart {
    /// Read a dictionary key.
    Key(String),
    /// Read a list position.
    Index(usize),
}

/// The mathematical form of a [`QueryPart`].
pub enum Step {
    Key(Seq<char>),
    Index(int),
}

impl QueryPart {
    pub open spec fn view(&self) -> Step {
        match self {
            QueryPart::Key(k) => Step::Key(k@),
            QueryPart::Index(i) => Step::Index(*i as int),
        }
    }
}

/// The first index of `c` in `s`, or -1.
pub open spec fn first_index(s: Seq<char>, c: char) -> int
    decreases s.len(),
{
    if s.len() == 0 {
        -1
    } else if s[0] == c {
        0
    } else if first_index(s.drop_first(), c) < 0 {
        -1
    } else {
        first_index(s.drop_first(), c) + 1
    }
}

/// The text with every `c` taken out.
pub open spec fn remove_all(s: Seq<char>, c: char) -> Seq<char>
    decreases s.len(),
{
    if s.len() == 0 {
        s
    } else if s.last() == c {
        remove_all(s.drop_last(), c)
    } else {
        remove_all(s.drop_last(), c).push(s.last())
    }
}

/// Whether a text is one or more decimal digits.
pub open spec fn all_digits(t: Seq<char>) -> bool {
    t.len() > 0 && forall|j: int| 0 <= j < t.len() ==> '0' <= #[trigger] t[j] <= '9'
}

/// A list position written in decimal, with an optional leading `+`, that
/// fits in a `usize`.
pub open spec fn index_of(t: Seq<char>) -> Option<int> {
    let u = if t.len() > 0 && t[0] == '+' {
        t.drop_first()
    } else {
        t
    };
    if all_digits(u) && decimal_value(u) <= usize::MAX {
        Some(decimal_value(u))
    } else {
        None
    }
}

/// The steps of one path segment: a key, or for `key[index]` a key and
/// then a position. What follows a second `[` is ignored, and every `]` is
/// dropped from the position. A position that is no number spoils the path.
pub open spec fn segment_steps(seg: Seq<char>) -> Option<Seq<Step>> {
    let i = first_index(seg, '[');
    if i < 0 {
        Some(seq![Step::Key(seg)])
    } else {
        let after = seg.subrange(i + 1, seg.len() as int);
        let j = first_index(after, '[');
        let second = if j < 0 {
            after
        } else {
            after.subrange(0, j)
        };
        match index_of(remove_all(second, ']')) {
            Some(n) => Some(seq![Step::Key(seg.subrange(0, i)), Step::Index(n)]),
            None => None,
        }
    }
}

/// The steps of a query path: its segments between dots, empty ones
/// skipped, each read by [`segment_steps`].
pub open spec fn query_steps(q: Seq<char>) -> Option<Seq<Step>>
    decreases q.len(),
{
    let i = first_index(q, '.');
    let seg = if i < 0 {
        q
    } else {
        q.subrange(0, i)
    };
    let here = if seg.len() == 0 {
        Some(Seq::empty())
    } else {
        segment_steps(seg)
    };
    let rest = if i < 0 || i >= q.len() {
        Some(Seq::empty())
    } else {
        query_steps(q.subrange(i + 1, q.len() as int))
    };
    match (here, rest) {
        (Some(a), Some(b)) => Some(a + b),
        _ => None,
    }
}

/// What following the steps from `m` reaches; a missing key or position
/// reaches nil, and so does every step after it.
pub open spec fn resolve(m: Model, steps: Seq<Step>) -> Model
    decreases steps.len(),
{
    if steps.len() == 0 {
        m
    } else {
        let next = match steps[0] {
            Step::Key(k) => model_get(m, k),
            Step::Index(i) => model_at(m, i),
        };
        resolve(next, steps.drop_first())
    }
}

/// Once a step misses (a key a dictionary lacks, a position outside a list,
/// or a step into a value of another kind), nil carries through every later
/// step, and the query's text is `none`.
pub proof fn lemma_miss_gives_none(m: Model, steps: Seq<Step>, i: int)
    requires
        0 <= i < steps.len(),
        resolve(m, steps.subrange(0, i + 1)) == Model::Nil,
    ensures
        resolve(m, steps) == Model::Nil,
        render(resolve(m, steps)) == "none"@,
{
    lemma_resolve_split(m, steps, i + 1);
    lemma_nil_stays(steps.subrange(i + 1, steps.len() as int));
}

proof fn lemma_nil_stays(steps: Seq<Step>)
    ensures
        resolve(Model::Nil, steps) == Model::Nil,
    decreases steps.len(),
{
    if steps.len() > 0 {
        crate::value::lemma_missing_reads_nil(Model::Nil, Seq::empty(), 0);
        match steps[0] {
            Step::Key(k) => crate::value::lemma_missing_reads_nil(Model::Nil, k, 0),
            Step::Index(j) => crate::value::lemma_missing_reads_nil(Model::Nil, Seq::empty(), j),
        }
        lemma_nil_stays(steps.drop_first());
    }
}

proof fn lemma_resolve_split(m: Model, steps: Seq<Step>, k: int)
    requires
        0 <= k <= steps.len(),
    ensures
        resolve(m, steps) == resolve(resolve(m, steps.subrange(0, k)), steps.subrange(k, steps.len() as int)),
    decreases k,
{
    if k == 0 {
        assert(steps.subrange(0, 0).len() == 0);
        assert(steps.subrange(0, steps.len() as int) == steps);
    } else {
        let next = match steps[0] {
            Step::Key(key) => model_get(m, key),
            Step::Index(j) => model_at(m, j),
        };
        lemma_resolve_split(next, steps.drop_first(), k - 1);
        assert(steps.subrange(0, k).drop_first() == steps.drop_first().subrange(0, k - 1));
        assert(steps.drop_first().subrange(k - 1, steps.drop_first().len() as int) == steps.subrange(k, steps.len() as int));
        assert(steps.subrange(0, k)[0] == steps[0]);
    }
}

proof fn lemma_first_index(s: Seq<char>, c: char)
    ensures
        -1 <= first_index(s, c) < s.len(),
        first_index(s, c) >= 0 ==> s[first_index(s, c)] == c,
        forall|j: int| 0 <= j < s.len() && (first_index(s, c) < 0 || j < first_index(s, c)) ==> #[trigger] s[j] != c,
    decreases s.len(),
{
    if s.len() > 0 && s[0] != c {
        lemma_first_index(s.drop_first(), c);
        assert forall|j: int| 0 <= j < s.len() && (first_index(s, c) < 0 || j < first_index(s, c)) implies #[trigger] s[j] != c by {
            if j > 0 {
                assert(s[j] == s.drop_first()[j - 1]);
            }
        }
    }
}

/// The first position of `c` in `s`.
fn find_char(s: &str, c: char) -> (r: Option<usize>)
    ensures
        match r {
            Some(i) => i as int == first_index(s@, c),
            None => first_index(s@, c) < 0,
        },
{
    proof {
        lemma_first_index(s@, c);
    }
    let n = s.unicode_len();
    let mut i: usize = 0;
    while i < n
        invariant
            n == s@.len(),
            i <= n,
            forall|j: int| 0 <= j < i ==> s@[j] != c,
            -1 <= first_index(s@, c) < s@.len(),
            first_index(s@, c) >= 0 ==> s@[first_index(s@, c)] == c,
            forall|j: int| 0 <= j < s@.len() && (first_index(s@, c) < 0 || j < first_index(s@, c)) ==> #[trigger] s@[j] != c,
        decreases n - i,
    {
        if s.get_char(i) == c {
            return Some(i);
        }
        i = i + 1;
    }
    None
}

/// `s` with every `c` taken out.
fn without_char(s: &str, c: char) -> (r: String)
    ensures
        r@ == remove_all(s@, c),
{
    let n = s.unicode_len();
    let mut r = String::new();
    let mut i: usize = 0;
    while i < n
        invariant
            n == s@.len(),
            i <= n,
            r@ == remove_all(s@.subrange(0, i as int), c),
        decreases n - i,
    {
        assert(s@.subrange(0, i + 1).drop_last() == s@.subrange(0, i as int));
        let ch = s.get_char(i);
        if ch != c {
            r.append(s.substring_char(i, i + 1));
        }
        i = i + 1;
    }
    assert(s@.subrange(0, n as int) == s@);
    r
}

/// Reads a list position as [`index_of`] describes.
fn read_index(t: &str) -> (r: Option<usize>)
    ensures
        match index_of(t@) {
            Some(n) => r is Some && r->Some_0 as int == n,
            None => r is None,
        },
{
    let n = t.unicode_len();
    let mut start: usize = 0;
    if n > 0 && t.get_char(0) == '+' {
        start = 1;
    }
    let ghost u = t@.subrange(start as int, n as int);
    assert(start == 1 ==> u == t@.drop_first());
    assert(start == 0 ==> u == t@);
    if start >= n {
        return None;
    }
    assert(index_of(t@) == (if all_digits(u) && decimal_value(u) <= usize::MAX {
        Some(decimal_value(u))
    } else {
        None
    }));
    let mut acc: usize = 0;
    let mut i: usize = start;
    while i < n
        invariant
            n == t@.len(),
            start <= i <= n,
            u == t@.subrange(start as int, n as int),
            index_of(t@) == (if all_digits(u) && decimal_value(u) <= usize::MAX {
                Some(decimal_value(u))
            } else {
                None
            }),
            forall|j: int| 0 <= j < i - start ==> '0' <= #[trigger] u[j] <= '9',
            acc as int == decimal_value(u.subrange(0, i - start)),
        decreases n - i,
    {
        let c = t.get_char(i);
        if c < '0' || c > '9' {
            assert(!('0' <= u[i - start] <= '9'));
            assert(!all_digits(u));
            return None;
        }
        let ghost pre = u.subrange(0, i - start);
        assert(u.subrange(0, i - start + 1).drop_last() == pre);
        let d = (c as usize) - ('0' as usize);
        if acc > (usize::MAX - d) / 10 {
            proof {
                let k = i - start + 1;
                assert(decimal_value(u.subrange(0, k)) > usize::MAX);
                if all_digits(u) {
                    crate::number::lemma_decimal_grows(u, k);
                }
            }
            return None;
        }
        acc = acc * 10 + d;
        i = i + 1;
    }
    assert(u.subrange(0, n - start) == u);
    Some(acc)
}

/// The steps of a sequence of query parts.
pub open spec fn parts_view(ps: Seq<QueryPart>) -> Seq<Step> {
    Seq::new(ps.len(), |i: int| ps[i].view())
}

/// Reads one path segment as [`segment_steps`] describes.
fn segment_parts(seg: &str) -> (r: Option<Vec<QueryPart>>)
    ensures
        match segment_steps(seg@) {
            Some(st) => r is Some && parts_view(r->Some_0@) == st,
            None => r is None,
        },
{
    let n = seg.unicode_len();
    match find_char(seg, '[') {
        None => {
            let mut v: Vec<QueryPart> = Vec::new();
            v.push(QueryPart::Key(String::from_str(seg)));
            assert(parts_view(v@) =~= seq![Step::Key(seg@)]);
            Some(v)
        },
        Some(i) => {
            proof {
                lemma_first_index(seg@, '[');
            }
            let after = seg.substring_char(i + 1, n);
            let second = match find_char(after, '[') {
                Some(j) => {
                    proof {
                        lemma_first_index(after@, '[');
                    }
                    after.substring_char(0, j)
                },
                None => after,
            };
            let digits = without_char(second, ']');
            match read_index(digits.as_str()) {
                Some(k) => {
                    let mut v: Vec<QueryPart> = Vec::new();
                    v.push(QueryPart::Key(String::from_str(seg.substring_char(0, i))));
                    v.push(QueryPart::Index(k));
                    assert(parts_view(v@) =~= seq![Step::Key(seg@.subrange(0, i as int)), Step::Index(k as int)]);
                    Some(v)
                },
                None => None,
            }
        },
    }
}

/// Reads a query path such as `.foo.bar[0].baz` into its steps, as
/// [`query_steps`] describes; `None` where a position is no number.
pub fn parse_query(q: &str) -> (r: Option<Vec<QueryPart>>)
    ensures
        match query_steps(q@) {
            Some(st) => r is Some && parts_view(r->Some_0@) == st,
            None => r is None,
        },
    decreases q@.len(),
{
    proof {
        lemma_first_index(q@, '.');
    }
    let n = q.unicode_len();
    let dot = find_char(q, '.');
    let seg = match dot {
        Some(i) => q.substring_char(0, i),
        None => q,
    };
    let here = if seg.unicode_len() == 0 {
        Some(Vec::new())
    } else {
        segment_parts(seg)
    };
    let rest = match dot {
        Some(i) => parse_query(q.substring_char(i + 1, n)),
        None => Some(Vec::new()),
    };
    match (here, rest) {
        (Some(mut a), Some(b)) => {
            let ghost pa = parts_view(a@);
            let ghost pb = parts_view(b@);
            let mut k: usize = 0;
            while k < b.len()
                invariant
                    k <= b@.len(),
                    pb == parts_view(b@),
                    parts_view(a@) == pa + pb.subrange(0, k as int),
                decreases b@.len() - k,
            {
                let part = match &b[k] {
                    QueryPart::Key(key) => QueryPart::Key(key.clone()),
                    QueryPart::Index(j) => QueryPart::Index(*j),
                };
                let ghost before = parts_view(a@);
                a.push(part);
                assert(parts_view(a@) =~= before.push(pb[k as int]));
                assert(pa + pb.subrange(0, k + 1) =~= (pa + pb.subrange(0, k as int)).push(pb[k as int]));
                k = k + 1;
            }
            assert(pb.subrange(0, k as int) == pb);
            proof {
                if seg@.len() == 0 {
                    assert(pa =~= Seq::<Step>::empty());
                }
            }
            Some(a)
        },
        _ => None,
    }
}

/// Follows the parts from `value`, reading keys and positions in turn.
pub fn resolve_parts(value: &Value, parts: &Vec<QueryPart>) -> (r: Value)
    ensures
        r@ == resolve(value@, parts_view(parts@)),
{
    let ghost steps = parts_view(parts@);
    let mut cur = value.duplicate();
    assert(steps.subrange(0, steps.len() as int) == steps);
    let mut i: usize = 0;
    while i < parts.len()
        invariant
            i <= parts@.len(),
            steps == parts_view(parts@),
            resolve(value@, steps) == resolve(cur@, steps.subrange(i as int, steps.len() as int)),
        decreases parts@.len() - i,
    {
        let ghost rest = steps.subrange(i as int, steps.len() as int);
        assert(rest.drop_first() == steps.subrange(i + 1, steps.len() as int));
        assert(rest[0] == parts@[i as int].view());
        cur = match &parts[i] {
            QueryPart::Key(k) => cur.get(k.as_str()),
            QueryPart::Index(j) => cur.get_index(*j),
        };
        i = i + 1;
    }
    cur
}

/// Resolves the query path `q` from `value` and gives the canonical text of
/// what it reaches; `None` where the path holds a position that is no
/// number.
pub fn query(value: &Value, q: &str) -> (r: Option<String>)
    ensures
        match query_steps(q@) {
            Some(st) => r is Some && r->Some_0@ == render(resolve(value@, st)),
            None => r is None,
        },
{
    match parse_query(q) {
        Some(parts) => {
            let reached = resolve_parts(value, &parts);
            Some(reached.to_text())
        },
        None => None,
    }
}

} // verus!
