//! Wire names of fields and variants.
use vstd::prelude::*;

verus! {

/// What inflector makes of an identifier in camel case.
pub uninterp spec fn camel_case_of(s: Seq<char>) -> Seq<char>;

/// Relies on inflector's `cases::camelcase::to_camel_case`, which depends on
/// the characters of its argument alone.
#[verifier::external_body]
fn to_camel_case(s: &str) -> (r: String)
    ensures
        r@ == camel_case_of(s@),
{
    inflector::cases::camelcase::to_camel_case(s)
}

/// The name under which a field or variant goes on the wire: the identifier in
/// camel case. Identifiers that differ only in case or underscores can share one.
pub fn canonical_ident(ident: &str) -> (r: String)
    ensures
        r@ == camel_case_of(ident@),
{
    to_camel_case(ident)
}

} // verus!
