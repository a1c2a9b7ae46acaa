//! The ordered map of `im` that holds the store, seen as the entries it holds.
use vstd::prelude::*;
use vstd::utf8::encode_utf8;
use im::OrdMap;
use crate::value::{Value, ValueView};

verus! {

#[verifier::external_type_specification]
#[verifier::external_body]
#[verifier::reject_recursive_types(K)]
#[verifier::reject_recursive_types(V)]
pub struct ExOrdMap<K, V>(OrdMap<K, V>);

/// The entries that a store holds: each key's text, mapped to its value.
pub uninterp spec fn store_entries(m: OrdMap<String, Value>) -> Map<Seq<char>, ValueView>;

/// The order of `String`: byte-wise lexicographic order of the UTF-8 encodings.
pub open spec fn bytes_before(a: Seq<u8>, b: Seq<u8>) -> bool
    decreases a.len(),
{
    if a.len() == 0 {
        b.len() > 0
    } else if b.len() == 0 {
        false
    } else if a[0] != b[0] {
        a[0] < b[0]
    } else {
        bytes_before(a.drop_first(), b.drop_first())
    }
}

/// Key `a` comes before key `b` in a store.
pub open spec fn key_before(a: Seq<char>, b: Seq<char>) -> bool {
    bytes_before(encode_utf8(a), encode_utf8(b))
}

/// The key/value pairs listed, read as texts and values.
pub open spec fn pairs_view<'a>(ps: Seq<(&'a String, &'a Value)>) -> Seq<(Seq<char>, ValueView)> {
    ps.map_values(|p: (&'a String, &'a Value)| (p.0@, p.1@))
}

/// `ps` lists the entries of `entries`, each once, in key order.
pub open spec fn lists_entries(ps: Seq<(Seq<char>, ValueView)>, entries: Map<Seq<char>, ValueView>) -> bool {
    &&& ps.len() == entries.len()
    &&& forall|i: int|
        0 <= i < ps.len() ==> entries.contains_key(#[trigger] ps[i].0) && entries[ps[i].0]
            == ps[i].1
    &&& forall|i: int, j: int| 0 <= i < j < ps.len() ==> key_before(#[trigger] ps[i].0, #[trigger] ps[j].0)
    &&& forall|k: Seq<char>| #[trigger] entries.contains_key(k) ==> exists|i: int| 0 <= i < ps.len() && ps[i].0 == k
}

/// The entries of an empty store.
pub open spec fn no_entries() -> Map<Seq<char>, ValueView> {
    Map::empty()
}

/// `OrdMap::new`: an empty store.
#[verifier::external_body]
pub(crate) fn store_new() -> (r: OrdMap<String, Value>)
    ensures
        store_entries(r) == no_entries(),
{
    OrdMap::new()
}

/// `OrdMap::insert`: maps the key to the value, in place of any value it had,
/// and gives back that earlier value.
#[verifier::external_body]
pub(crate) fn store_insert(m: &mut OrdMap<String, Value>, key: String, value: Value) -> (r: Option<Value>)
    ensures
        store_entries(*final(m)) == store_entries(*old(m)).insert(key@, value@),
        r is Some <==> store_entries(*old(m)).contains_key(key@),
        r matches Some(v) ==> v@ == store_entries(*old(m))[key@],
{
    m.insert(key, value)
}

/// `OrdMap::remove`: takes the key out and gives back the value it had.
#[verifier::external_body]
pub(crate) fn store_remove(m: &mut OrdMap<String, Value>, key: &String) -> (r: Option<Value>)
    ensures
        store_entries(*final(m)) == store_entries(*old(m)).remove(key@),
        r is Some <==> store_entries(*old(m)).contains_key(key@),
        r matches Some(v) ==> v@ == store_entries(*old(m))[key@],
{
    m.remove(key)
}

/// `OrdMap::get`: the value of a key.
#[verifier::external_body]
pub(crate) fn store_get<'a>(m: &'a OrdMap<String, Value>, key: &String) -> (r: Option<&'a Value>)
    ensures
        r is Some <==> store_entries(*m).contains_key(key@),
        r matches Some(v) ==> v@ == store_entries(*m)[key@],
{
    m.get(key)
}

/// `OrdMap::iter`: the entries, from the lowest key to the highest.
#[verifier::external_body]
pub(crate) fn store_pairs<'a>(m: &'a OrdMap<String, Value>) -> (r: Vec<(&'a String, &'a Value)>)
    ensures
        lists_entries(pairs_view(r@), store_entries(*m)),
{
    m.iter().collect()
}

} // verus!
