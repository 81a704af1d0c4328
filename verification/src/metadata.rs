use vstd::prelude::*;

verus! {

/// A dynamic metadata value attached to an embedding: a tagged sum of
/// null, boolean, number, string, ordered list and nested object.
/// A number carries the bit pattern of a 64-bit IEEE-754 float; the
/// store never computes with it, it only preserves it for transport.
pub enum MetaValue {
    Null,
    Bool(bool),
    Num(u64),
    Str(String),
    List(Vec<MetaValue>),
    Obj(Vec<(String, MetaValue)>),
}

/// The mathematical model of a metadata value.
pub enum MetaVal {
    Null,
    Bool(bool),
    Num(u64),
    Str(Seq<char>),
    List(Seq<MetaVal>),
    Obj(Seq<(Seq<char>, MetaVal)>),
}

/// A metadata object: field name to value, in insertion order.
pub type MetaObject = Vec<(String, MetaValue)>;

pub open spec fn mval_view(v: MetaValue) -> MetaVal
    decreases v,
{
    match v {
        MetaValue::Null => MetaVal::Null,
        MetaValue::Bool(b) => MetaVal::Bool(b),
        MetaValue::Num(n) => MetaVal::Num(n),
        MetaValue::Str(s) => MetaVal::Str(s@),
        MetaValue::List(items) => MetaVal::List(mval_list_view(items@)),
        MetaValue::Obj(entries) => MetaVal::Obj(mval_obj_view(entries@)),
    }
}

pub open spec fn mval_list_view(items: Seq<MetaValue>) -> Seq<MetaVal>
    decreases items,
{
    if items.len() == 0 {
        Seq::empty()
    } else {
        mval_list_view(items.drop_last()).push(mval_view(items.last()))
    }
}

pub open spec fn mval_obj_view(entries: Seq<(String, MetaValue)>) -> Seq<(Seq<char>, MetaVal)>
    decreases entries,
{
    if entries.len() == 0 {
        Seq::empty()
    } else {
        mval_obj_view(entries.drop_last()).push(
            (entries.last().0@, mval_view(entries.last().1)),
        )
    }
}

pub proof fn lemma_mval_list_view(items: Seq<MetaValue>)
    ensures
        mval_list_view(items).len() == items.len(),
        forall|i: int|
            0 <= i < items.len() ==> mval_list_view(items)[i] == mval_view(items[i]),
    decreases items,
{
    if items.len() > 0 {
        lemma_mval_list_view(items.drop_last());
    }
}

pub proof fn lemma_mval_obj_view(entries: Seq<(String, MetaValue)>)
    ensures
        mval_obj_view(entries).len() == entries.len(),
        forall|i: int|
            0 <= i < entries.len() ==> mval_obj_view(entries)[i] == (
            entries[i].0@,
            mval_view(entries[i].1),
            ),
    decreases entries,
{
    if entries.len() > 0 {
        lemma_mval_obj_view(entries.drop_last());
    }
}

/// Whether the modelled object has an entry under key `k`.
pub open spec fn obj_has_key(m: Seq<(Seq<char>, MetaVal)>, k: Seq<char>) -> bool {
    exists|i: int| 0 <= i < m.len() && m[i].0 == k
}

/// The model of an optional metadata object.
pub open spec fn meta_object_view(m: Option<MetaObject>) -> Option<Seq<(Seq<char>, MetaVal)>> {
    match m {
        Some(entries) => Some(mval_obj_view(entries@)),
        None => None,
    }
}

/// Key presence in an optional metadata object: an absent object has no keys.
pub open spec fn meta_has_key(m: Option<Seq<(Seq<char>, MetaVal)>>, k: Seq<char>) -> bool {
    match m {
        Some(obj) => obj_has_key(obj, k),
        None => false,
    }
}

/// Whether the object holds key `key`; only presence is tested, values are ignored.
pub fn object_contains_key(entries: &MetaObject, key: &String) -> (r: bool)
    ensures
        r == obj_has_key(mval_obj_view(entries@), key@),
{
    proof {
        lemma_mval_obj_view(entries@);
    }
    let n = entries.len();
    let mut i: usize = 0;
    while i < n
        invariant
            n == entries@.len(),
            0 <= i <= n,
            mval_obj_view(entries@).len() == n,
            forall|j: int|
                0 <= j < entries@.len() ==> mval_obj_view(entries@)[j] == (
                entries@[j].0@,
                mval_view(entries@[j].1),
                ),
            forall|j: int| 0 <= j < i ==> mval_obj_view(entries@)[j].0 != key@,
        decreases n - i,
    {
        if entries[i].0 == *key {
            proof {
                assert(mval_obj_view(entries@)[i as int].0 == key@);
            }
            return true;
        }
        i = i + 1;
    }
    false
}

impl Clone for MetaValue {
    /// A deep copy: the model of the copy equals the model of the original.
    fn clone(&self) -> (r: Self)
        ensures
            mval_view(r) == mval_view(*self),
        decreases *self,
    {
        match self {
            MetaValue::Null => MetaValue::Null,
            MetaValue::Bool(b) => MetaValue::Bool(*b),
            MetaValue::Num(n) => MetaValue::Num(*n),
            MetaValue::Str(s) => MetaValue::Str(s.clone()),
            MetaValue::List(items) => MetaValue::List(clone_meta_list(items)),
            MetaValue::Obj(entries) => MetaValue::Obj(clone_meta_object(entries)),
        }
    }
}

/// A deep copy of a list of metadata values, element by element.
pub fn clone_meta_list(items: &Vec<MetaValue>) -> (r: Vec<MetaValue>)
    ensures
        mval_list_view(r@) == mval_list_view(items@),
    decreases *items,
{
    let n = items.len();
    let mut out: Vec<MetaValue> = Vec::new();
    let mut i: usize = 0;
    while i < n
        invariant
            n == items@.len(),
            0 <= i <= n,
            out@.len() == i,
            forall|j: int| 0 <= j < i ==> mval_view(out@[j]) == mval_view(items@[j]),
        decreases n - i,
    {
        proof {
            assert(decreases_to!(*items => items@[i as int]));
        }
        let c = items[i].clone();
        out.push(c);
        i = i + 1;
    }
    proof {
        lemma_mval_list_view(out@);
        lemma_mval_list_view(items@);
        assert(mval_list_view(out@) =~= mval_list_view(items@));
    }
    out
}

/// A deep copy of a metadata object, entry by entry.
pub fn clone_meta_object(entries: &MetaObject) -> (r: MetaObject)
    ensures
        mval_obj_view(r@) == mval_obj_view(entries@),
    decreases *entries,
{
    let n = entries.len();
    let mut out: MetaObject = Vec::new();
    let mut i: usize = 0;
    while i < n
        invariant
            n == entries@.len(),
            0 <= i <= n,
            out@.len() == i,
            forall|j: int|
                0 <= j < i ==> out@[j].0 == entries@[j].0 && mval_view(out@[j].1) == mval_view(
                    entries@[j].1,
                ),
        decreases n - i,
    {
        proof {
            assert(decreases_to!(*entries => entries@[i as int]));
            assert(decreases_to!(entries@[i as int] => entries@[i as int].1));
        }
        let k = entries[i].0.clone();
        let v = entries[i].1.clone();
        out.push((k, v));
        i = i + 1;
    }
    proof {
        lemma_mval_obj_view(out@);
        lemma_mval_obj_view(entries@);
        assert(mval_obj_view(out@) =~= mval_obj_view(entries@));
    }
    out
}

/// A deep copy of an optional metadata object.
pub fn clone_meta_option(m: &Option<MetaObject>) -> (r: Option<MetaObject>)
    ensures
        meta_object_view(r) == meta_object_view(*m),
{
    match m {
        Some(entries) => Some(clone_meta_object(entries)),
        None => None,
    }
}

} // verus!
