use vstd::prelude::*;
use crate::player::Player;
use crate::messages::PlayerStatus;

verus! {

#[verifier::external_type_specification]
#[verifier::external_body]
#[verifier::reject_recursive_types(K)]
#[verifier::reject_recursive_types(V)]
#[verifier::reject_recursive_types(S)]
pub struct ExIndexMap<K, V, S>(indexmap::IndexMap<K, V, S>);

/// The smallest index whose key reads `k`, or -1 when no key does.
pub open spec fn key_index<V>(es: Seq<(String, V)>, k: Seq<char>) -> int
    decreases es.len(),
{
    if es.len() == 0 {
        -1
    } else if es[0].0@ == k {
        0
    } else {
        let r = key_index(es.drop_first(), k);
        if r < 0 {
            -1
        } else {
            r + 1
        }
    }
}

pub proof fn lemma_key_index<V>(es: Seq<(String, V)>, k: Seq<char>)
    ensures
        -1 <= key_index(es, k) < es.len(),
        key_index(es, k) >= 0 ==> es[key_index(es, k)].0@ == k,
        key_index(es, k) == -1 ==> forall|i: int| 0 <= i < es.len() ==> es[i].0@ != k,
        forall|i: int| 0 <= i < key_index(es, k) ==> es[i].0@ != k,
    decreases es.len(),
{
    if es.len() > 0 && es[0].0@ != k {
        lemma_key_index(es.drop_first(), k);
        assert forall|i: int| 0 <= i < es.len() && key_index(es, k) == -1 implies es[i].0@ != k by {
            if i > 0 {
                assert(es.drop_first()[i - 1] == es[i]);
            }
        }
        assert forall|i: int| 0 <= i < key_index(es, k) implies es[i].0@ != k by {
            if i > 0 {
                assert(es.drop_first()[i - 1] == es[i]);
            }
        }
    }
}

/// Slot lookup only reads the keys: lists with equal keys agree on it.
pub proof fn lemma_key_index_same_keys<V1, V2>(
    s1: Seq<(String, V1)>,
    s2: Seq<(String, V2)>,
    k: Seq<char>,
)
    requires
        s1.len() == s2.len(),
        forall|i: int| 0 <= i < s1.len() ==> s1[i].0@ == s2[i].0@,
    ensures
        key_index(s1, k) == key_index(s2, k),
    decreases s1.len(),
{
    if s1.len() > 0 {
        assert(forall|i: int|
            0 <= i < s1.drop_first().len() ==> #[trigger] s1.drop_first()[i] == s1[i + 1]);
        assert(forall|i: int|
            0 <= i < s2.drop_first().len() ==> #[trigger] s2.drop_first()[i] == s2[i + 1]);
        lemma_key_index_same_keys(s1.drop_first(), s2.drop_first(), k);
    }
}

/// The entries of a player map, in insertion order.
pub uninterp spec fn pmap_seq(m: indexmap::IndexMap<String, Player>) -> Seq<(String, Player)>;

/// Relies on indexmap's `IndexMap::new`: an empty map.
#[verifier::external_body]
pub fn pmap_new() -> (m: indexmap::IndexMap<String, Player>)
    ensures
        pmap_seq(m) == Seq::<(String, Player)>::empty(),
{
    indexmap::IndexMap::new()
}

/// Relies on indexmap's `IndexMap::len`: the number of entries.
#[verifier::external_body]
pub fn pmap_len(m: &indexmap::IndexMap<String, Player>) -> (n: usize)
    ensures
        n == pmap_seq(*m).len(),
{
    m.len()
}

/// Relies on indexmap's `IndexMap::insert`: a new key is appended at the end
/// of the order; an existing key keeps its place and only its value changes.
#[verifier::external_body]
pub fn pmap_insert(m: &mut indexmap::IndexMap<String, Player>, k: String, v: Player)
    ensures
        ({
            let es = pmap_seq(*old(m));
            let i = key_index(es, k@);
            if i >= 0 {
                pmap_seq(*final(m)) == es.update(i, (es[i].0, v))
            } else {
                pmap_seq(*final(m)) == es.push((k, v))
            }
        }),
{
    m.insert(k, v);
}

/// Relies on indexmap's `IndexMap::get` (key equality is `String` equality,
/// which is equality of the characters) and on `Player`'s derived `Clone`.
#[verifier::external_body]
pub fn pmap_get(m: &indexmap::IndexMap<String, Player>, k: &String) -> (r: Option<Player>)
    ensures
        ({
            let es = pmap_seq(*m);
            let i = key_index(es, k@);
            if i >= 0 {
                r == Some(es[i].1)
            } else {
                r == None::<Player>
            }
        }),
{
    m.get(k).cloned()
}

/// Relies on indexmap's `IndexMap::get_index` and on the derived `Clone`s.
#[verifier::external_body]
pub fn pmap_get_index(m: &indexmap::IndexMap<String, Player>, i: usize) -> (r: Option<
    (String, Player),
>)
    ensures
        ({
            let es = pmap_seq(*m);
            if i < es.len() {
                r == Some(es[i as int])
            } else {
                r == None::<(String, Player)>
            }
        }),
{
    m.get_index(i).map(|(k, v)| (k.clone(), v.clone()))
}

/// Relies on indexmap's `IndexMap::get_index_of`: the position of the entry
/// whose key equals `k`, if any.
#[verifier::external_body]
pub fn pmap_get_index_of(m: &indexmap::IndexMap<String, Player>, k: &String) -> (r: Option<usize>)
    ensures
        ({
            let es = pmap_seq(*m);
            let i = key_index(es, k@);
            if i >= 0 {
                r == Some(i as usize)
            } else {
                r == None::<usize>
            }
        }),
{
    m.get_index_of(k)
}

/// Relies on indexmap's `IndexMap::iter`, which yields the entries in order,
/// and on the derived `Clone`s.
#[verifier::external_body]
pub fn pmap_entries(m: &indexmap::IndexMap<String, Player>) -> (r: Vec<(String, Player)>)
    ensures
        r@ == pmap_seq(*m),
{
    m.iter().map(|(k, v)| (k.clone(), v.clone())).collect()
}

/// The entries of a lobby-member map, in insertion order.
pub uninterp spec fn smap_seq(m: indexmap::IndexMap<String, PlayerStatus>) -> Seq<
    (String, PlayerStatus),
>;

/// Relies on indexmap's `IndexMap::new`: an empty map.
#[verifier::external_body]
pub fn smap_new() -> (m: indexmap::IndexMap<String, PlayerStatus>)
    ensures
        smap_seq(m) == Seq::<(String, PlayerStatus)>::empty(),
{
    indexmap::IndexMap::new()
}

/// Relies on indexmap's `IndexMap::len`: the number of entries.
#[verifier::external_body]
pub fn smap_len(m: &indexmap::IndexMap<String, PlayerStatus>) -> (n: usize)
    ensures
        n == smap_seq(*m).len(),
{
    m.len()
}

/// Relies on indexmap's `IndexMap::insert`: a new key is appended at the end
/// of the order; an existing key keeps its place and only its value changes.
#[verifier::external_body]
pub fn smap_insert(m: &mut indexmap::IndexMap<String, PlayerStatus>, k: String, v: PlayerStatus)
    ensures
        ({
            let es = smap_seq(*old(m));
            let i = key_index(es, k@);
            if i >= 0 {
                smap_seq(*final(m)) == es.update(i, (es[i].0, v))
            } else {
                smap_seq(*final(m)) == es.push((k, v))
            }
        }),
{
    m.insert(k, v);
}

/// Relies on indexmap's `IndexMap::get` and on the derived `Clone`s.
#[verifier::external_body]
pub fn smap_get(m: &indexmap::IndexMap<String, PlayerStatus>, k: &String) -> (r: Option<
    PlayerStatus,
>)
    ensures
        ({
            let es = smap_seq(*m);
            let i = key_index(es, k@);
            if i >= 0 {
                r == Some(es[i].1)
            } else {
                r == None::<PlayerStatus>
            }
        }),
{
    m.get(k).cloned()
}

/// Relies on indexmap's `IndexMap::iter`, which yields the entries in order,
/// and on the derived `Clone`s.
#[verifier::external_body]
pub fn smap_entries(m: &indexmap::IndexMap<String, PlayerStatus>) -> (r: Vec<
    (String, PlayerStatus),
>)
    ensures
        r@ == smap_seq(*m),
{
    m.iter().map(|(k, v)| (k.clone(), v.clone())).collect()
}

} // verus!
