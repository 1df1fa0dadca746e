//! Core of an editor tooling server for translation catalogs: a
//! text-preserving insertion engine for object-shaped JSON documents,
//! a diagnostics engine over found key usages, query providers
//! (hover, completion, definition, inlay hints), capability
//! negotiation, and the workspace state owned by the session.

pub mod catalog;
pub mod diagnostics;
pub mod indent_laws;
pub mod insert;
pub mod insert_laws;
pub mod providers;
pub mod state;
pub mod text;
pub mod watch;

use vstd::prelude::*;

verus! {

/// The raw placeholder value written for a freshly created key: the
/// key wrapped in one leading and one trailing underscore.
pub fn raw_placeholder(key: &str) -> (r: String)
    ensures
        r@ == seq!['_'] + key@ + seq!['_'],
{
    let mut r = String::new();
    r.append("_");
    r.append(key);
    r.append("_");
    proof {
        reveal_strlit("_");
        assert(r@ =~= seq!['_'] + key@ + seq!['_']);
    }
    r
}

} // verus!
