//! Helpers for checking plans on small documents: find a node by key, and the caller
//! function that reads a missing attribute as the empty string.

use vstd::prelude::*;
use crate::plan::offline::dom::Dom;
use crate::plan::representation::id::DomNodeId;
use crate::plan::representation::registry::{Value, ValueM};

verus! {

/// Whether two strings are equal.
fn same_text(a: &str, b: &str) -> (r: bool)
    ensures
        r == (a@ == b@),
{
    let n = a.unicode_len();
    if b.unicode_len() != n {
        return false;
    }
    let mut i: usize = 0;
    while i < n
        invariant
            n == a@.len(),
            b@.len() == n,
            i <= n,
            forall|j: int| 0 <= j < i ==> a@[j] == b@[j],
        decreases n - i,
    {
        if a.get_char(i) != b.get_char(i) {
            return false;
        }
        i += 1;
    }
    assert(a@ =~= b@);
    true
}

/// `@root` is the synthetic root; any other key names the first node, in document
/// order, whose `id` attribute is the key, else the first whose tag is the key.
/// `None` when no node has that id or tag.
pub fn at(dom: &Dom, key: &str) -> (r: Option<DomNodeId>)
    ensures
        key@ == "@root"@ ==> r == Some(DomNodeId(0)),
        r matches Some(id) ==> id.0 < dom@.len(),
        key@ != "@root"@ && (exists|i: int| 0 <= i < dom@.len() && (#[trigger] dom@[i]).tag == Some(key@)) ==> r is Some,
{
    proof {
        use_type_invariant(dom);
    }
    if same_text(key, "@root") {
        return Some(dom.root());
    }
    let n = dom.len();
    let mut by_tag: Option<DomNodeId> = None;
    let mut i: usize = 0;
    while i < n
        invariant
            n == dom@.len(),
            key@ != "@root"@,
            i <= n,
            by_tag matches Some(id) ==> id.0 < n,
            by_tag is None ==> forall|j: int| 0 <= j < i ==> dom@[j].tag != Some(key@),
        decreases n - i,
    {
        let id = DomNodeId::new(i as u64);
        match dom.attr(id, "id") {
            Some(v) => {
                if same_text(v.as_str(), key) {
                    return Some(id);
                }
            },
            None => {},
        }
        if by_tag.is_none() {
            match dom.tag(id) {
                Some(t) => {
                    if same_text(t, key) {
                        by_tag = Some(id);
                    }
                },
                None => {},
            }
        }
        i = i + 1;
    }
    by_tag
}

/// The caller function that reads a missing attribute (`Null`) as the empty string and
/// keeps any other value.
pub fn unwrap_or_empty_str(args: &[Value]) -> (r: Value)
    requires
        args@.len() == 1,
    ensures
        args@[0]@ is Null ==> r@ == ValueM::Str(Seq::empty()),
        !(args@[0]@ is Null) ==> r@ == args@[0]@,
{
    match &args[0] {
        Value::Null => {
            proof {
                reveal_strlit("");
                assert(""@ =~= Seq::<char>::empty());
            }
            Value::str("")
        },
        other => other.copy(),
    }
}

} // verus!
