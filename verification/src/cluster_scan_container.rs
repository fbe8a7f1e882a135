//! The registry of cluster-scan cursors: each cursor that was handed out to a
//! caller is kept under a random token until the caller is done with it.

use crate::error::GlideError;
use crate::shared::share;
use crate::string_map::StringMap;
use std::sync::Arc;
use vstd::prelude::*;

verus! {

/// Whether `c` may occur in a token: a letter, a digit, `_` or `-`.
pub open spec fn is_token_char(c: char) -> bool {
    ('a' <= c && c <= 'z') || ('A' <= c && c <= 'Z') || ('0' <= c && c <= '9') || c == '_' || c
        == '-'
}

/// Whether `text` has the form of a token: 21 characters that are letters,
/// digits, `_` or `-`.
pub open spec fn is_token(text: Seq<char>) -> bool {
    &&& text.len() == 21
    &&& forall|i: int| 0 <= i < text.len() ==> is_token_char(#[trigger] text[i])
}

/// Calls `nanoid::format` with `nanoid::rngs::default`, the alphabet
/// `nanoid::alphabet::SAFE` and the size 21, as `nanoid::nanoid!()` does.
/// Trusted: the string has 21 characters, each taken from that alphabet, which
/// holds the letters, the digits, `_` and `-`. Which ones is up to the random
/// generator, so nothing more is known of them, and two calls may well differ.
/// The generator is seeded from the operating system and panics if that has no
/// entropy to give.
#[verifier::external_body]
fn fresh_token() -> (token: String)
    ensures
        is_token(token@),
{
    nanoid::format(nanoid::rngs::default, &nanoid::alphabet::SAFE, 21)
}

/// The registry of scan cursors. `S` is the state a cursor stands for; the
/// registry shares it with whoever asks and never looks inside.
pub struct ScanContainer<S> {
    cursors: StringMap<Arc<S>>,
}

impl<S> View for ScanContainer<S> {
    type V = Map<Seq<char>, Arc<S>>;

    closed spec fn view(&self) -> Map<Seq<char>, Arc<S>> {
        self.cursors@
    }
}

impl<S> ScanContainer<S> {
    /// The table is well formed.
    pub closed spec fn wf(&self) -> bool {
        self.cursors.wf()
    }

    /// A registry without cursors.
    pub fn new() -> (container: Self)
        ensures
            container.wf(),
            container@ == Map::<Seq<char>, Arc<S>>::empty(),
    {
        ScanContainer { cursors: StringMap::new() }
    }
}

/// Stores `scan_state` under `id`, in place of what was stored there.
pub fn insert_cluster_scan_cursor_with_id<S>(
    container: &mut ScanContainer<S>,
    id: String,
    scan_state: Arc<S>,
)
    requires
        old(container).wf(),
    ensures
        final(container).wf(),
        final(container)@ == old(container)@.insert(id@, scan_state),
{
    container.cursors.insert(id, scan_state);
}

/// Stores `scan_state` under a fresh random token and returns the token.
pub fn insert_cluster_scan_cursor<S>(container: &mut ScanContainer<S>, scan_state: Arc<S>) -> (id:
    String)
    requires
        old(container).wf(),
    ensures
        final(container).wf(),
        is_token(id@),
        final(container)@ == old(container)@.insert(id@, scan_state),
{
    let id = fresh_token();
    insert_cluster_scan_cursor_with_id(container, id.clone(), scan_state);
    id
}

/// The cursor stored under `id`, shared with the registry.
///
/// Fails with `InvalidCursor` if nothing is stored under `id`.
pub fn get_cluster_scan_cursor<S>(container: &ScanContainer<S>, id: String) -> (found: Result<
    Arc<S>,
    GlideError,
>)
    requires
        container.wf(),
    ensures
        match found {
            Ok(scan_state) => container@.contains_key(id@) && scan_state == container@[id@],
            Err(error) => !container@.contains_key(id@) && error == GlideError::InvalidCursor,
        },
{
    match container.cursors.get(&id) {
        Some(scan_state) => Ok(share(scan_state)),
        None => Err(GlideError::InvalidCursor),
    }
}

/// Drops the cursor stored under `id`, if there is one.
pub fn remove_scan_state_cursor<S>(container: &mut ScanContainer<S>, id: String)
    requires
        old(container).wf(),
    ensures
        final(container).wf(),
        final(container)@ == old(container)@.remove(id@),
{
    container.cursors.remove(&id);
}

/// A cursor that was inserted is found under its token until it is removed,
/// and not after that.
pub proof fn lemma_cursor_lifecycle<S>(
    registry: Map<Seq<char>, Arc<S>>,
    id: Seq<char>,
    scan_state: Arc<S>,
)
    ensures
        registry.insert(id, scan_state).contains_key(id),
        registry.insert(id, scan_state)[id] == scan_state,
        !registry.insert(id, scan_state).remove(id).contains_key(id),
        !registry.contains_key(id) ==> registry.insert(id, scan_state).remove(id) == registry,
{
    assert(!registry.contains_key(id) ==> registry.insert(id, scan_state).remove(id) =~= registry);
}

} // verus!
