//! The compute core of the file-backed store. Each operation takes the old
//! file text and yields the answer and, for writes, the new file text: a
//! whole read-modify-write transaction minus the reading and writing itself,
//! which the caller does around it. A text is malformed exactly when it does
//! not read as a JSON object of strings with no repeated key.

use vstd::prelude::*;

verus! {

use crate::StoreError;
use crate::codec::spec_parse;
use crate::codec::spec_ser;
use crate::store::StoreMap;
use crate::store::spec_lookup;
use crate::store::spec_update;
use crate::store::unique_keys;

/// What a store file holds the moment it is created: the empty object.
pub fn initial_content() -> (r: String)
    ensures
        r@ == spec_ser(Seq::<(Seq<char>, Seq<char>)>::empty()),
{
    let m = StoreMap::new();
    m.to_json()
}

/// The whole `set` transaction: parse the file text, insert or overwrite the
/// pair, and serialize everything back. Succeeds exactly on the well-formed
/// texts, and then the new text is the canonical text of the updated store.
pub fn apply_set(content: &str, key: String, value: String) -> (r: Result<String, StoreError>)
    ensures
        (r matches Ok(out) ==> (spec_parse(content@) matches Some(es) && unique_keys(es)
            && out@ == spec_ser(spec_update(es, key@, value@)))),
        spec_parse(content@) matches Some(es) ==> (unique_keys(es) ==> (r matches Ok(out)
            && out@ == spec_ser(spec_update(es, key@, value@)))),
{
    match StoreMap::from_json(content) {
        Err(e) => Err(e),
        Ok(mut m) => {
            let ghost before = m@;
            m.set_entry(key, value);
            let out = m.to_json();
            proof {
                assert(spec_parse(content@) == Some(before) && unique_keys(before) && out@
                    == spec_ser(spec_update(before, key@, value@)));
            }
            Ok(out)
        },
    }
}

/// The whole `get` transaction: parse the file text and look the key up.
/// Succeeds exactly on the well-formed texts; an absent key is `Ok(None)`.
pub fn lookup(content: &str, key: String) -> (r: Result<Option<String>, StoreError>)
    ensures
        (r matches Ok(found) ==> (spec_parse(content@) matches Some(es) && unique_keys(es) && (
        match found {
            Some(v) => spec_lookup(es, key@) == Some(v@),
            None => spec_lookup(es, key@) is None,
        }))),
        spec_parse(content@) matches Some(es) ==> (unique_keys(es) ==> r is Ok),
{
    match StoreMap::from_json(content) {
        Err(e) => Err(e),
        Ok(m) => Ok(m.get_entry(&key)),
    }
}

/// The whole `get_all` transaction: parse the file text and hand back every
/// value, `None` when the store is empty. Succeeds exactly on the
/// well-formed texts.
pub fn all_values(content: &str) -> (r: Result<Option<Vec<String>>, StoreError>)
    ensures
        (r matches Ok(all) ==> (spec_parse(content@) matches Some(es) && unique_keys(es) && (
        match all {
            None => es.len() == 0,
            Some(vs) => es.len() > 0 && vs@.len() == es.len() && forall|x: int|
                0 <= x < vs@.len() ==> vs@[x]@ == es[x].1,
        }))),
        spec_parse(content@) matches Some(es) ==> (unique_keys(es) ==> r is Ok),
{
    match StoreMap::from_json(content) {
        Err(e) => Err(e),
        Ok(m) => {
            if m.len() == 0 {
                Ok(None)
            } else {
                Ok(Some(m.values()))
            }
        },
    }
}

} // verus!
