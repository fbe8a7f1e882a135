//! The script cache: script bodies keyed by the SHA-1 digest of the body,
//! each with a count of how often it was added.

use crate::shared::share;
use crate::string_map::StringMap;
use std::sync::Arc;
use vstd::prelude::*;

verus! {

/// `bytes::BytesMut`, the buffer that holds the body of a script. Nothing
/// inside it is visible here; what it holds is named by [`buffer_bytes`].
#[verifier::external_type_specification]
#[verifier::external_body]
pub struct ExBytesMut(bytes::BytesMut);

/// The bytes that a buffer holds.
pub uninterp spec fn buffer_bytes(buffer: bytes::BytesMut) -> Seq<u8>;

/// The SHA-1 digest of `data`, written as a hexadecimal string.
pub uninterp spec fn sha1_hex(data: Seq<u8>) -> Seq<char>;

/// Whether `c` is a decimal digit or one of the letters `a` to `f`.
pub open spec fn is_lower_hex(c: char) -> bool {
    ('0' <= c && c <= '9') || ('a' <= c && c <= 'f')
}

/// Whether `text` has the form of a digest: 40 lowercase hexadecimal digits.
pub open spec fn is_hex_digest(text: Seq<char>) -> bool {
    &&& text.len() == 40
    &&& forall|i: int| 0 <= i < text.len() ==> is_lower_hex(#[trigger] text[i])
}

/// Calls `sha1_smol::Sha1::from`, `digest` and the digest's `to_string`.
/// Trusted: the string is a function of the bytes alone, which `sha1_hex`
/// names, and is made of five 32-bit words, each written as eight lowercase
/// hexadecimal digits.
#[verifier::external_body]
fn sha1_digest(script: &[u8]) -> (hash: String)
    ensures
        hash@ == sha1_hex(script@),
        is_hex_digest(hash@),
{
    sha1_smol::Sha1::from(script).digest().to_string()
}

/// Calls `bytes::BytesMut::from` on a slice. Trusted: the new buffer holds a
/// copy of the slice's bytes.
#[verifier::external_body]
fn buffer_from(script: &[u8]) -> (buffer: bytes::BytesMut)
    ensures
        buffer_bytes(buffer) == script@,
{
    bytes::BytesMut::from(script)
}

/// What the cache knows of one script.
pub struct ScriptView {
    /// The script's body.
    pub body: Seq<u8>,
    /// How often the script was added and not removed since.
    pub refs: nat,
}

/// The cache after `body` was added under `key`: a script that is there
/// already is referenced once more and keeps its body; another one enters
/// with one reference.
pub open spec fn script_added(
    cache: Map<Seq<char>, ScriptView>,
    key: Seq<char>,
    body: Seq<u8>,
) -> Map<Seq<char>, ScriptView> {
    if cache.contains_key(key) {
        cache.insert(key, ScriptView { refs: cache[key].refs + 1, ..cache[key] })
    } else {
        cache.insert(key, ScriptView { body, refs: 1 })
    }
}

/// The cache after one reference to the script under `key` was given up: the
/// script leaves with its last reference.
pub open spec fn script_removed(cache: Map<Seq<char>, ScriptView>, key: Seq<char>) -> Map<
    Seq<char>,
    ScriptView,
> {
    if !cache.contains_key(key) {
        cache
    } else if cache[key].refs <= 1 {
        cache.remove(key)
    } else {
        cache.insert(key, ScriptView { refs: (cache[key].refs - 1) as nat, ..cache[key] })
    }
}

/// Every script in the cache is referenced at least once.
pub open spec fn all_referenced(cache: Map<Seq<char>, ScriptView>) -> bool {
    forall|key: Seq<char>| #[trigger] cache.contains_key(key) ==> cache[key].refs >= 1
}

/// Every script in the cache stands under the digest of its body.
pub open spec fn content_addressed(cache: Map<Seq<char>, ScriptView>) -> bool {
    forall|key: Seq<char>| #[trigger] cache.contains_key(key) ==> key == sha1_hex(cache[key].body)
}

/// How often the script under `key` is referenced; 0 if there is none.
pub open spec fn references(cache: Map<Seq<char>, ScriptView>, key: Seq<char>) -> nat {
    if cache.contains_key(key) {
        cache[key].refs
    } else {
        0
    }
}

/// Adding a script and removing it again by the key it was added under
/// leaves the cache as it was; so does, in particular, adding a script and
/// removing it by its digest.
pub proof fn lemma_add_then_remove(
    cache: Map<Seq<char>, ScriptView>,
    key: Seq<char>,
    script: Seq<u8>,
)
    requires
        all_referenced(cache),
    ensures
        script_removed(script_added(cache, key, script), key) == cache,
        script_removed(script_added(cache, sha1_hex(script), script), sha1_hex(script)) == cache,
{
    let digest = sha1_hex(script);
    assert(script_removed(script_added(cache, key, script), key) =~= cache);
    assert(script_removed(script_added(cache, digest, script), digest) =~= cache);
}

/// Adding and removing keep every script referenced, and adding a script under
/// its digest keeps every script under the digest of its body.
pub proof fn lemma_cache_invariants(
    cache: Map<Seq<char>, ScriptView>,
    key: Seq<char>,
    body: Seq<u8>,
)
    requires
        all_referenced(cache),
    ensures
        all_referenced(script_added(cache, key, body)),
        all_referenced(script_removed(cache, key)),
        content_addressed(cache) && key == sha1_hex(body) ==> content_addressed(
            script_added(cache, key, body),
        ),
        content_addressed(cache) ==> content_addressed(script_removed(cache, key)),
{
    let added = script_added(cache, key, body);
    assert forall|k: Seq<char>| #[trigger] added.contains_key(k) implies added[k].refs >= 1 by {
        if k != key {
            assert(cache.contains_key(k));
        }
    }
    let removed = script_removed(cache, key);
    assert forall|k: Seq<char>| #[trigger] removed.contains_key(k) implies removed[k].refs
        >= 1 by {
        assert(cache.contains_key(k));
    }
    if content_addressed(cache) {
        assert forall|k: Seq<char>| #[trigger] removed.contains_key(k) implies k == sha1_hex(
            removed[k].body,
        ) by {
            assert(cache.contains_key(k));
        }
        if key == sha1_hex(body) {
            assert forall|k: Seq<char>| #[trigger] added.contains_key(k) implies k == sha1_hex(
                added[k].body,
            ) by {
                if k != key {
                    assert(cache.contains_key(k));
                }
            }
        }
    }
}

/// The body of a script stays what it was when the script entered the cache,
/// whatever is added or removed while it is there.
pub proof fn lemma_body_is_immutable(
    cache: Map<Seq<char>, ScriptView>,
    key: Seq<char>,
    other: Seq<char>,
    body: Seq<u8>,
)
    requires
        cache.contains_key(key),
    ensures
        script_added(cache, other, body).contains_key(key),
        script_added(cache, other, body)[key].body == cache[key].body,
        script_removed(cache, other).contains_key(key) ==> script_removed(cache, other)[key].body
            == cache[key].body,
{
}

/// One script of the cache: its body, shared with its readers, and the number
/// of references to it.
pub struct ScriptEntry {
    code: Arc<bytes::BytesMut>,
    ref_count: usize,
}

impl View for ScriptEntry {
    type V = ScriptView;

    closed spec fn view(&self) -> ScriptView {
        ScriptView { body: buffer_bytes(*self.code), refs: self.ref_count as nat }
    }
}

/// The script cache.
pub struct ScriptsContainer {
    entries: StringMap<ScriptEntry>,
}

impl View for ScriptsContainer {
    type V = Map<Seq<char>, ScriptView>;

    closed spec fn view(&self) -> Map<Seq<char>, ScriptView> {
        self.entries@.map_values(|entry: ScriptEntry| entry@)
    }
}

impl ScriptsContainer {
    /// The table is well formed, and every script in it is referenced.
    pub closed spec fn wf(&self) -> bool {
        &&& self.entries.wf()
        &&& all_referenced(self@)
    }

    /// A well-formed cache holds no script without a reference.
    pub proof fn lemma_all_referenced(&self)
        requires
            self.wf(),
        ensures
            all_referenced(self@),
    {
    }

    /// An empty cache.
    pub fn new() -> (container: Self)
        ensures
            container.wf(),
            container@ == Map::<Seq<char>, ScriptView>::empty(),
    {
        let container = ScriptsContainer { entries: StringMap::new() };
        assert(container@ =~= Map::<Seq<char>, ScriptView>::empty());
        container
    }
}

/// Adds `script` under `hash`, which the caller has computed from it. Adding
/// a script that is there already counts one more reference to it and keeps
/// the body that is stored.
pub fn add_script_with_hash(container: &mut ScriptsContainer, hash: String, script: &[u8])
    requires
        old(container).wf(),
        references(old(container)@, hash@) < usize::MAX,
    ensures
        final(container).wf(),
        final(container)@ == script_added(old(container)@, hash@, script@),
{
    let ghost before = container@;
    match container.entries.remove(&hash) {
        Some(entry) => {
            let mut entry = entry;
            entry.ref_count = entry.ref_count + 1;
            container.entries.insert(hash, entry);
        },
        None => {
            let entry = ScriptEntry { code: Arc::new(buffer_from(script)), ref_count: 1 };
            container.entries.insert(hash, entry);
        },
    }
    proof {
        assert(container@ =~= script_added(before, hash@, script@));
        lemma_cache_invariants(before, hash@, script@);
    }
}

/// Adds `script` to the cache and returns the key it stands under: the SHA-1
/// digest of the script, as 40 lowercase hexadecimal digits.
pub fn add_script(container: &mut ScriptsContainer, script: &[u8]) -> (hash: String)
    requires
        old(container).wf(),
        references(old(container)@, sha1_hex(script@)) < usize::MAX,
    ensures
        final(container).wf(),
        hash@ == sha1_hex(script@),
        is_hex_digest(hash@),
        final(container)@ == script_added(old(container)@, sha1_hex(script@), script@),
        content_addressed(old(container)@) ==> content_addressed(final(container)@),
{
    let hash = sha1_digest(script);
    let key = hash.clone();
    proof {
        container.lemma_all_referenced();
        lemma_cache_invariants(container@, hash@, script@);
    }
    add_script_with_hash(container, key, script);
    hash
}

/// Adds `script` to the cache unless the count of its references has reached
/// the largest number: then the cache stays as it is and `None` is returned.
pub fn try_add_script(container: &mut ScriptsContainer, script: &[u8]) -> (added: Option<String>)
    requires
        old(container).wf(),
    ensures
        final(container).wf(),
        match added {
            Some(hash) => {
                &&& references(old(container)@, sha1_hex(script@)) < usize::MAX
                &&& hash@ == sha1_hex(script@)
                &&& is_hex_digest(hash@)
                &&& final(container)@ == script_added(
                    old(container)@,
                    sha1_hex(script@),
                    script@,
                )
            },
            None => {
                &&& references(old(container)@, sha1_hex(script@)) == usize::MAX
                &&& final(container)@ == old(container)@
            },
        },
{
    let hash = sha1_digest(script);
    if reference_count(container, hash.as_str()) < usize::MAX {
        Some(add_script(container, script))
    } else {
        None
    }
}

/// The body of the script under `hash`, shared with the cache.
pub fn get_script(container: &ScriptsContainer, hash: &str) -> (found: Option<Arc<bytes::BytesMut>>)
    requires
        container.wf(),
    ensures
        match found {
            Some(code) => container@.contains_key(hash@) && buffer_bytes(*code)
                == container@[hash@].body,
            None => !container@.contains_key(hash@),
        },
{
    let key = hash.to_owned();
    match container.entries.get(&key) {
        Some(entry) => Some(share(&entry.code)),
        None => None,
    }
}

/// How often the script under `hash` is referenced; 0 if there is none.
pub fn reference_count(container: &ScriptsContainer, hash: &str) -> (count: usize)
    requires
        container.wf(),
    ensures
        count == references(container@, hash@),
{
    let key = hash.to_owned();
    match container.entries.get(&key) {
        Some(entry) => entry.ref_count,
        None => 0,
    }
}

/// Gives up one reference to the script under `hash`; the script leaves the
/// cache with its last reference. Does nothing if there is no such script.
pub fn remove_script(container: &mut ScriptsContainer, hash: &str)
    requires
        old(container).wf(),
    ensures
        final(container).wf(),
        final(container)@ == script_removed(old(container)@, hash@),
        content_addressed(old(container)@) ==> content_addressed(final(container)@),
{
    let key = hash.to_owned();
    let ghost before = container@;
    match container.entries.remove(&key) {
        Some(entry) => {
            if entry.ref_count > 1 {
                let mut entry = entry;
                entry.ref_count = entry.ref_count - 1;
                container.entries.insert(key, entry);
            }
        },
        None => {},
    }
    proof {
        assert(container@ =~= script_removed(before, hash@));
        lemma_cache_invariants(before, hash@, Seq::empty());
    }
}

} // verus!
