//! The link-time name under which a route announces itself.

use vstd::prelude::*;

verus! {

/// What the name of a describer starts with.
pub open spec fn describer_prefix() -> Seq<char> {
    "__preinit__20_register_route_describer_"@
}

/// The symbol that exports the describer of a route.
pub fn register_describer_symbol(route_name: &str) -> (symbol: String)
    ensures
        symbol@ == describer_prefix() + route_name@,
        symbol@ == "__preinit__20_register_route_describer_"@ + route_name@,
{
    "__preinit__20_register_route_describer_".to_owned().concat(route_name)
}

/// Routes of different names have different symbols.
pub proof fn symbols_differ(one: Seq<char>, other: Seq<char>)
    requires
        one != other,
    ensures
        describer_prefix() + one != describer_prefix() + other,
{
    let skip = describer_prefix().len() as int;
    assert((describer_prefix() + one).skip(skip) =~= one);
    assert((describer_prefix() + other).skip(skip) =~= other);
}

} // verus!
