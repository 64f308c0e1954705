use vstd::prelude::*;

use crate::value::{dict_put, keys_unique, Model, Value};

verus! {

broadcast use vstd::std_specs::vec::group_vec_axioms, vstd::seq::group_seq_axioms;

/// The models of a sequence of values.
pub open spec fn models(vs: Seq<Value>) -> Seq<Model> {
    Seq::new(vs.len(), |j: int| vs[j]@)
}

/// The items of a sequence of lists, one list after another.
pub open spec fn concat_lists(vs: Seq<Model>) -> Seq<Model>
    decreases vs.len(),
{
    if vs.len() == 0 {
        Seq::empty()
    } else {
        concat_lists(vs.drop_last()) + vs.last()->List_0
    }
}

/// The entries `acc` with each of `es` bound in turn.
pub open spec fn put_all(acc: Seq<(Seq<char>, Model)>, es: Seq<(Seq<char>, Model)>) -> Seq<
    (Seq<char>, Model),
>
    decreases es.len(),
{
    if es.len() == 0 {
        acc
    } else {
        dict_put(put_all(acc, es.drop_last()), es.last().0, es.last().1)
    }
}

/// The union of a sequence of dictionaries, where a later one's entry wins
/// over an earlier one's with the same key.
pub open spec fn union_dicts(vs: Seq<Model>) -> Seq<(Seq<char>, Model)>
    decreases vs.len(),
{
    if vs.len() == 0 {
        Seq::empty()
    } else {
        put_all(union_dicts(vs.drop_last()), vs.last()->Dict_0)
    }
}

/// What `@merge` makes of its argument: a non-empty list of lists gives
/// their items in order; a non-empty list of dictionaries gives their union,
/// later entries winning; anything else gives nil.
pub open spec fn merge_model(m: Model) -> Model {
    match m {
        Model::List(vs) => if vs.len() > 0 && forall|i: int| 0 <= i < vs.len() ==> #[trigger] vs[i] is List {
            Model::List(concat_lists(vs))
        } else if vs.len() > 0 && forall|i: int| 0 <= i < vs.len() ==> #[trigger] vs[i] is Dict {
            Model::Dict(union_dicts(vs))
        } else {
            Model::Nil
        },
        _ => Model::Nil,
    }
}

/// The model of a list value is the models of its items.
pub proof fn lemma_list_view(l: Vec<Value>)
    ensures
        Value::List(l)@ == Model::List(models(l@)),
{
    assert(Value::List(l)@->List_0 =~= models(l@));
}

proof fn lemma_dict_view(d: Vec<(String, Value)>)
    ensures
        Value::Dict(d)@ == Model::Dict(Seq::new(d@.len(), |j: int| (d@[j].0@, d@[j].1@))),
{
    assert(Value::Dict(d)@->Dict_0 =~= Seq::new(d@.len(), |j: int| (d@[j].0@, d@[j].1@)));
}

/// Whether every element of `vs` is a list (`lists`) or a dictionary.
fn all_of_kind(vs: &Vec<Value>, lists: bool) -> (r: bool)
    ensures
        r == forall|i: int|
            0 <= i < vs@.len() ==> if lists {
                #[trigger] vs@[i]@ is List
            } else {
                vs@[i]@ is Dict
            },
{
    let mut i: usize = 0;
    while i < vs.len()
        invariant
            i <= vs@.len(),
            forall|j: int|
                0 <= j < i ==> if lists {
                    #[trigger] vs@[j]@ is List
                } else {
                    vs@[j]@ is Dict
                },
        decreases vs@.len() - i,
    {
        let ok = match &vs[i] {
            Value::List(_) => lists,
            Value::Dict(_) => !lists,
            _ => false,
        };
        if !ok {
            return false;
        }
        i = i + 1;
    }
    true
}

/// Merges a list of lists or a list of dictionaries, as [`merge_model`]
/// describes.
pub fn merge(value: &Value) -> (r: Value)
    ensures
        r@ == merge_model(value@),
        r@ is Dict ==> keys_unique(r@->Dict_0),
{
    match value {
        Value::List(vs) => {
            proof {
                lemma_list_view(*vs);
            }
            let ghost ms = value@->List_0;
            assert(forall|i: int| 0 <= i < ms.len() ==> #[trigger] ms[i] == vs@[i]@);
            if vs.len() == 0 {
                return Value::Nil;
            }
            let lists = all_of_kind(vs, true);
            let dicts = all_of_kind(vs, false);
            proof {
                if !lists {
                    let j = choose|j: int| 0 <= j < vs@.len() && !(vs@[j]@ is List);
                    assert(!(ms[j] is List));
                }
                if !dicts {
                    let j = choose|j: int| 0 <= j < vs@.len() && !(vs@[j]@ is Dict);
                    assert(!(ms[j] is Dict));
                }
                if lists {
                    assert(forall|i: int| 0 <= i < ms.len() ==> #[trigger] ms[i] is List);
                }
                if dicts {
                    assert(forall|i: int| 0 <= i < ms.len() ==> #[trigger] ms[i] is Dict);
                }
            }
            if lists {
                let mut out: Vec<Value> = Vec::new();
                let mut i: usize = 0;
                while i < vs.len()
                    invariant
                        i <= vs@.len(),
                        ms == models(vs@),
                        forall|j: int| 0 <= j < vs@.len() ==> #[trigger] vs@[j]@ is List,
                        models(out@) == concat_lists(ms.subrange(0, i as int)),
                    decreases vs@.len() - i,
                {
                    assert(ms.subrange(0, i + 1).drop_last() == ms.subrange(0, i as int));
                    if let Value::List(items) = &vs[i] {
                        proof {
                            lemma_list_view(*items);
                        }
                        let ghost before = models(out@);
                        let mut k: usize = 0;
                        while k < items.len()
                            invariant
                                k <= items@.len(),
                                models(out@) == before + models(items@).subrange(0, k as int),
                            decreases items@.len() - k,
                        {
                            let ghost prev = models(out@);
                            out.push(items[k].duplicate());
                            proof {
                                assert(models(out@) =~= prev.push(items@[k as int]@));
                                assert(models(out@) =~= before + models(items@).subrange(0, k + 1));
                            }
                            k = k + 1;
                        }
                        assert(models(items@).subrange(0, k as int) == models(items@));
                    }
                    i = i + 1;
                }
                assert(ms.subrange(0, vs@.len() as int) == ms);
                proof {
                    lemma_list_view(out);
                }
                Value::List(out)
            } else if dicts {
                let mut out = Value::Dict(Vec::new());
                assert(out@->Dict_0 =~= Seq::<(Seq<char>, Model)>::empty());
                let mut i: usize = 0;
                while i < vs.len()
                    invariant
                        i <= vs@.len(),
                        ms == models(vs@),
                        forall|j: int| 0 <= j < vs@.len() ==> #[trigger] vs@[j]@ is Dict,
                        out@ is Dict,
                        keys_unique(out@->Dict_0),
                        out@->Dict_0 == union_dicts(ms.subrange(0, i as int)),
                    decreases vs@.len() - i,
                {
                    assert(ms.subrange(0, i + 1).drop_last() == ms.subrange(0, i as int));
                    if let Value::Dict(es) = &vs[i] {
                        proof {
                            lemma_dict_view(*es);
                        }
                        let ghost before = out@->Dict_0;
                        let ghost em = vs@[i as int]@->Dict_0;
                        let mut k: usize = 0;
                        while k < es.len()
                            invariant
                                k <= es@.len(),
                                em == Seq::new(es@.len(), |j: int| (es@[j].0@, es@[j].1@)),
                                out@ is Dict,
                                keys_unique(out@->Dict_0),
                                out@->Dict_0 == put_all(before, em.subrange(0, k as int)),
                            decreases es@.len() - k,
                        {
                            assert(em.subrange(0, k + 1).drop_last() == em.subrange(0, k as int));
                            let e = &es[k];
                            out.set(e.0.as_str(), e.1.duplicate());
                            k = k + 1;
                        }
                        assert(em.subrange(0, k as int) == em);
                    }
                    i = i + 1;
                }
                assert(ms.subrange(0, vs@.len() as int) == ms);
                out
            } else {
                Value::Nil
            }
        },
        _ => Value::Nil,
    }
}

} // verus!
