//! The data model: a value is an integer, a byte string, a list of values or
//! a dictionary from byte strings to values.

use vstd::prelude::*;
use vstd::std_specs::cmp::PartialEqSpecImpl;
use crate::bytes::bytes_eq;
use crate::dictionary::Dictionary;

verus! {

/// What a [`Bencoded`] value stands for: the mathematical value that the
/// contracts of this crate speak of.
pub ghost enum Value {
    Integer(int),
    Bytestring(Seq<u8>),
    List(Seq<Value>),
    Dict(Map<Seq<u8>, Value>),
}

impl Value {
    /// The values that a [`Bencoded`] can hold: every integer in it fits the
    /// machine integer, and every dictionary in it is finite.
    pub open spec fn representable(self) -> bool
        decreases self,
    {
        match self {
            Value::Integer(n) => isize::MIN <= n <= isize::MAX,
            Value::Bytestring(_) => true,
            Value::List(items) => forall|i: int|
                0 <= i < items.len() ==> (#[trigger] items[i]).representable(),
            Value::Dict(m) => m.dom().finite() && forall|k: Seq<u8>|
                m.dom().contains(k) ==> (#[trigger] m[k]).representable(),
        }
    }
}

/// A bencoded value.
#[derive(Debug)]
pub enum Bencoded {
    /// An integer, written `i<digits>e` in base 10, with `-` in front of a
    /// negative one.
    Integer(isize),
    /// A byte string, written `<length>:<bytes>` with the length in base 10.
    Bytestring(Vec<u8>),
    /// A list, written `l<items>e`.
    List(Vec<Bencoded>),
    /// A dictionary, written `d<key><value>...e`.
    Dict(Dictionary),
}

/// The values that the items of a list stand for, in order.
pub open spec fn view_items(items: Seq<Bencoded>) -> Seq<Value>
    decreases items, 0int,
{
    Seq::new(
        items.len(),
        |i: int|
            if 0 <= i < items.len() {
                view_of(items[i])
            } else {
                arbitrary()
            },
    )
}

/// The value that `b` stands for.
pub open spec fn view_of(b: Bencoded) -> Value
    decreases b, 1int,
{
    match b {
        Bencoded::Integer(n) => Value::Integer(n as int),
        Bencoded::Bytestring(v) => Value::Bytestring(v@),
        Bencoded::List(v) => Value::List(view_items(v@)),
        Bencoded::Dict(d) => Value::Dict(d@),
    }
}

/// Whatever a [`Bencoded`] holds, the value that it stands for is
/// representable.
pub proof fn lemma_view_representable(b: Bencoded)
    ensures
        b@.representable(),
    decreases b,
{
    match b {
        Bencoded::Integer(_) => {},
        Bencoded::Bytestring(_) => {},
        Bencoded::List(v) => {
            let items = view_items(v@);
            assert forall|i: int| 0 <= i < items.len() implies (#[trigger] items[i]).representable() by {
                lemma_view_representable(v@[i]);
            }
        },
        Bencoded::Dict(d) => {
            d.lemma_view_representable();
        },
    }
}

impl View for Bencoded {
    type V = Value;

    open spec fn view(&self) -> Value {
        view_of(*self)
    }
}

impl Bencoded {
    /// Whether the two values are the same: lists item by item in order,
    /// dictionaries key by key in whatever order their entries are kept.
    pub(crate) fn same(&self, other: &Bencoded) -> (r: bool)
        ensures
            r == (self@ == other@),
        decreases self,
    {
        match (self, other) {
            (Bencoded::Integer(a), Bencoded::Integer(b)) => *a == *b,
            (Bencoded::Bytestring(a), Bencoded::Bytestring(b)) => bytes_eq(
                a.as_slice(),
                b.as_slice(),
            ),
            (Bencoded::List(a), Bencoded::List(b)) => {
                if a.len() != b.len() {
                    assert(view_items(a@).len() != view_items(b@).len());
                    return false;
                }
                let mut i: usize = 0;
                while i < a.len()
                    invariant
                        i <= a.len(),
                        a.len() == b.len(),
                        self == Bencoded::List(*a),
                        other == Bencoded::List(*b),
                        forall|j: int| 0 <= j < i ==> a[j]@ == b[j]@,
                    decreases a.len() - i,
                {
                    proof {
                        assert(decreases_to!(self => self->List_0));
                    }
                    if !a[i].same(&b[i]) {
                        assert(view_items(a@)[i as int] != view_items(b@)[i as int]);
                        return false;
                    }
                    i += 1;
                }
                assert(view_items(a@) =~= view_items(b@));
                true
            },
            (Bencoded::Dict(a), Bencoded::Dict(b)) => a.same(b),
            _ => false,
        }
    }

    /// The value stored under `key`, where `self` is a dictionary that holds
    /// the key; `None` where it is no dictionary or does not hold it.
    pub fn get(&self, key: &[u8]) -> (r: Option<&Bencoded>)
        ensures
            match r {
                Some(v) => self@ matches Value::Dict(m) && m.dom().contains(key@) && v@ == m[key@],
                None => !(self@ matches Value::Dict(m) && m.dom().contains(key@)),
            },
    {
        match self {
            Bencoded::Dict(d) => d.get(key),
            _ => None,
        }
    }
}

impl PartialEq for Bencoded {
    fn eq(&self, other: &Bencoded) -> (r: bool) {
        self.same(other)
    }
}

impl PartialEqSpecImpl for Bencoded {
    open spec fn obeys_eq_spec() -> bool {
        true
    }

    open spec fn eq_spec(&self, other: &Bencoded) -> bool {
        self@ == other@
    }
}

impl Eq for Bencoded {

}

} // verus!
