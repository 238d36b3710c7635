//! Identifiers of store objects and their canonical form.
//!
//! An object may be named by its full path (`/nix/store/<key>-<name>`) or by
//! its key alone. Both forms are brought to one canonical key before any
//! lookup or comparison.

use vstd::prelude::*;
use vstd::string::*;

verus! {

/// Number of characters in a canonical key.
pub const KEY_WIDTH: usize = 32;

/// The leading segment that full identifiers share.
pub open spec fn store_root() -> Seq<char> {
    seq!['/', 'n', 'i', 'x', '/', 's', 't', 'o', 'r', 'e', '/']
}

/// `id` with the store root taken off the front, if it is there.
pub open spec fn without_root(id: Seq<char>) -> Seq<char> {
    if store_root().is_prefix_of(id) {
        id.skip(store_root().len() as int)
    } else {
        id
    }
}

/// The canonical key of `id`: the first `KEY_WIDTH` characters that follow the
/// store root (all of them, when there are fewer).
pub open spec fn canonical(id: Seq<char>) -> Seq<char> {
    let rest = without_root(id);
    if rest.len() > KEY_WIDTH {
        rest.take(KEY_WIDTH as int)
    } else {
        rest
    }
}

/// Whether `id`, of `len` characters, starts with the store root.
fn has_store_root(id: &str, len: usize) -> (rooted: bool)
    requires
        len == id@.len(),
    ensures
        rooted == store_root().is_prefix_of(id@),
{
    let root = "/nix/store/";
    proof {
        reveal_strlit("/nix/store/");
        assert(root@ =~= store_root());
    }
    if len < 11 {
        return false;
    }
    let mut i: usize = 0;
    while i < 11
        invariant
            i <= 11,
            11 <= len == id@.len(),
            root@ == store_root(),
            forall|j: int| 0 <= j < i ==> id@[j] == store_root()[j],
        decreases 11 - i,
    {
        if id.get_char(i) != root.get_char(i) {
            assert(id@.subrange(0, 11)[i as int] != store_root()[i as int]);
            return false;
        }
        i += 1;
    }
    assert(id@.subrange(0, 11) =~= store_root());
    true
}

/// Brings an identifier to its canonical key.
pub fn canonical_id(id: &str) -> (key: String)
    ensures
        key@ == canonical(id@),
{
    let len: usize = id.unicode_len();
    let from: usize = if has_store_root(id, len) { 11 } else { 0 };
    let to: usize = if len - from > KEY_WIDTH { from + KEY_WIDTH } else { len };
    let key = String::from_str(id.substring_char(from, to));
    proof {
        let rest = without_root(id@);
        assert(rest =~= id@.subrange(from as int, len as int));
        assert(key@ =~= canonical(id@));
    }
    key
}

} // verus!
