//! Bencode values and their mathematical model.

use vstd::prelude::*;

verus! {

/// A bencode value as the program holds it. A dictionary is a vector of
/// entries; a well-formed one keeps its keys in strictly ascending byte
/// order, so that every dictionary has one representation and one encoding.
#[derive(Debug, PartialEq, Eq)]
pub enum BencodeValue {
    String(Vec<u8>),
    Integer(i64),
    List(Vec<BencodeValue>),
    Dict(Vec<(Vec<u8>, BencodeValue)>),
}

/// The tree that a `BencodeValue` stands for.
pub enum Value {
    String(Seq<u8>),
    Integer(int),
    List(Seq<Value>),
    Dict(Seq<(Seq<u8>, Value)>),
}

/// Lexicographic order on byte strings: the first differing byte decides, and
/// a proper prefix comes first.
pub open spec fn lex_less(a: Seq<u8>, b: Seq<u8>) -> bool
    decreases a.len(),
{
    if b.len() == 0 {
        false
    } else if a.len() == 0 {
        true
    } else if a[0] != b[0] {
        a[0] < b[0]
    } else {
        lex_less(a.drop_first(), b.drop_first())
    }
}

/// The keys of `d` are strictly ascending.
pub open spec fn keys_ascending(d: Seq<(Seq<u8>, Value)>) -> bool {
    forall|i: int, j: int| 0 <= i < j < d.len() ==> lex_less(#[trigger] d[i].0, #[trigger] d[j].0)
}

impl Value {
    /// Integers fit in 64 bits and dictionary keys ascend, at every depth.
    pub open spec fn wf(self) -> bool
        decreases self,
    {
        match self {
            Value::String(_) => true,
            Value::Integer(i) => i64::MIN <= i <= i64::MAX,
            Value::List(l) => forall|i: int| 0 <= i < l.len() ==> (#[trigger] l[i]).wf(),
            Value::Dict(d) => keys_ascending(d) && forall|i: int|
                0 <= i < d.len() ==> (#[trigger] d[i]).1.wf(),
        }
    }
}

/// The tree of a value.
pub open spec fn tree(v: BencodeValue) -> Value
    decreases v,
{
    match v {
        BencodeValue::String(s) => Value::String(s@),
        BencodeValue::Integer(i) => Value::Integer(i as int),
        BencodeValue::List(l) => Value::List(list_view(l@)),
        BencodeValue::Dict(d) => Value::Dict(entries_view(d@)),
    }
}

/// The trees of a vector of values, in order.
pub open spec fn list_view(l: Seq<BencodeValue>) -> Seq<Value>
    decreases l,
{
    if l.len() == 0 {
        Seq::empty()
    } else {
        list_view(l.drop_last()).push(tree(l.last()))
    }
}

/// The entries of a dictionary as keys and trees, in order.
pub open spec fn entries_view(d: Seq<(Vec<u8>, BencodeValue)>) -> Seq<(Seq<u8>, Value)>
    decreases d,
{
    if d.len() == 0 {
        Seq::empty()
    } else {
        entries_view(d.drop_last()).push((d.last().0@, tree(d.last().1)))
    }
}

impl View for BencodeValue {
    type V = Value;

    open spec fn view(&self) -> Value {
        tree(*self)
    }
}

/// `list_view` maps item by item.
pub proof fn lemma_list_view(l: Seq<BencodeValue>)
    ensures
        list_view(l).len() == l.len(),
        forall|i: int| 0 <= i < l.len() ==> (#[trigger] list_view(l)[i]) == l[i]@,
    decreases l.len(),
{
    if l.len() > 0 {
        lemma_list_view(l.drop_last());
    }
}

/// `entries_view` maps entry by entry.
pub proof fn lemma_entries_view(d: Seq<(Vec<u8>, BencodeValue)>)
    ensures
        entries_view(d).len() == d.len(),
        forall|i: int|
            0 <= i < d.len() ==> (#[trigger] entries_view(d)[i]) == (d[i].0@, d[i].1@),
    decreases d.len(),
{
    if d.len() > 0 {
        lemma_entries_view(d.drop_last());
    }
}

impl BencodeValue {
    /// The value is well formed when its tree is.
    pub open spec fn wf(&self) -> bool {
        self@.wf()
    }
}

impl Clone for BencodeValue {
    /// A copy that stands for the same tree.
    #[verifier::loop_isolation(false)]
    fn clone(&self) -> (copy: Self)
        ensures
            copy@ == self@,
        decreases self,
    {
        match self {
            BencodeValue::String(s) => BencodeValue::String(s.clone()),
            BencodeValue::Integer(i) => BencodeValue::Integer(*i),
            BencodeValue::List(l) => {
                let mut items: Vec<BencodeValue> = Vec::new();
                let mut i: usize = 0;
                proof {
                    lemma_list_view(l@);
                }
                while i < l.len()
                    invariant
                        i <= l.len(),
                        items@.len() == i,
                        forall|j: int| 0 <= j < i ==> items@[j]@ == l@[j]@,
                    decreases l.len() - i,
                {
                    items.push(l[i].clone());
                    i += 1;
                }
                proof {
                    lemma_list_view(items@);
                    assert(list_view(items@) =~= list_view(l@));
                }
                BencodeValue::List(items)
            },
            BencodeValue::Dict(d) => {
                let mut entries: Vec<(Vec<u8>, BencodeValue)> = Vec::new();
                let mut i: usize = 0;
                proof {
                    lemma_entries_view(d@);
                }
                while i < d.len()
                    invariant
                        i <= d.len(),
                        entries@.len() == i,
                        forall|j: int|
                            0 <= j < i ==> entries@[j].0@ == d@[j].0@ && entries@[j].1@ == d@[j].1@,
                    decreases d.len() - i,
                {
                    entries.push((d[i].0.clone(), d[i].1.clone()));
                    i += 1;
                }
                proof {
                    lemma_entries_view(entries@);
                    assert(entries_view(entries@) =~= entries_view(d@));
                }
                BencodeValue::Dict(entries)
            },
        }
    }
}

} // verus!
