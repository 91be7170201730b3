//! Observer join handling.
//!
//! A newly connected observer is offered the registry's current call
//! identifiers, replies with one text message, and that message — trimmed
//! of surrounding whitespace — names the call it wants to observe. An
//! unknown identifier is a silent no-op: the observer is simply never
//! joined, and its connection is left alone.

use vstd::prelude::*;

use crate::registry::Registry;

verus! {

/// What trimming surrounding whitespace from `s` leaves; a function of the
/// string alone.
pub uninterp spec fn trim_of(s: Seq<char>) -> Seq<char>;

/// Relies on str::trim: returns the string with leading and trailing
/// whitespace removed, a function of the string alone.
#[verifier::external_body]
fn trim_whitespace(s: &String) -> (r: String)
    ensures
        r@ == trim_of(s@),
{
    s.trim().to_owned()
}

/// Interprets one text message from an observer as a call identifier,
/// trimmed of surrounding whitespace, and joins the observer to that call.
/// Reports whether the join took place; when the identifier is unknown the
/// registry is left unchanged and the observer stays unregistered.
pub fn subscriber_join(registry: &mut Registry, request: &String, observer: u64) -> (joined: bool)
    requires
        old(registry).wf(),
    ensures
        final(registry).wf(),
        joined == old(registry).has_call(trim_of(request@)),
        final(registry).ids() == old(registry).ids(),
        forall|id: Seq<char>|
            #[trigger] final(registry).has_call(id) == old(registry).has_call(id),
        joined ==> final(registry).obs(trim_of(request@)) == old(registry).obs(
            trim_of(request@),
        ).push(observer),
        forall|id: Seq<char>|
            #![trigger final(registry).obs(id)]
            old(registry).has_call(id) && id != trim_of(request@) ==> final(registry).obs(id)
                == old(registry).obs(id),
        !joined ==> final(registry).entries_view() == old(registry).entries_view(),
{
    let call_id = trim_whitespace(request);
    registry.join(&call_id, observer)
}

} // verus!
