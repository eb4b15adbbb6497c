//! The pet component: questions about a pet's health.
use vstd::prelude::*;
use crate::text::{owned, push_str};

verus! {

/// A pet and its kind.
#[derive(Debug, PartialEq, Eq)]
pub struct Pet {
    pub name: String,
    pub pet_type: String,
}

/// The two messages a component answers with.
#[derive(Debug, PartialEq, Eq)]
pub struct Message {
    pub nice_message: String,
    pub notso_nice_message: String,
}

pub open spec fn nice_question(input: Pet) -> Seq<char> {
    "How is your "@ + input.pet_type@ + ", "@ + input.name@ + "?"@
}

pub open spec fn blunt_question(input: Pet) -> Seq<char> {
    "Is your "@ + input.pet_type@ + ", "@ + input.name@ + ", dead already?"@
}

/// The pet-health tool: both questions about `input`.
pub fn ask_pet_health(input: Pet) -> (r: Message)
    ensures
        r.nice_message@ == nice_question(input),
        r.notso_nice_message@ == blunt_question(input),
{
    let mut nice = owned("How is your ");
    push_str(&mut nice, input.pet_type.as_str());
    push_str(&mut nice, ", ");
    push_str(&mut nice, input.name.as_str());
    push_str(&mut nice, "?");
    let mut blunt = owned("Is your ");
    push_str(&mut blunt, input.pet_type.as_str());
    push_str(&mut blunt, ", ");
    push_str(&mut blunt, input.name.as_str());
    push_str(&mut blunt, ", dead already?");
    Message { nice_message: nice, notso_nice_message: blunt }
}

} // verus!
