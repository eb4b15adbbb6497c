//! The greeter component: a greeting for a person's wish.
use vstd::prelude::*;
use crate::text::{owned, push_str};

verus! {

/// Who is greeted, and for what.
#[derive(Debug, PartialEq, Eq)]
pub struct PersonalData {
    pub forename: String,
    pub name: String,
    pub wish: String,
    pub birthdate: String,
}

/// The two messages a component answers with.
#[derive(Debug, PartialEq, Eq)]
pub struct Message {
    pub nice_message: String,
    pub notso_nice_message: String,
}

pub open spec fn nice_greeting(input: PersonalData) -> Seq<char> {
    "Hello, "@ + input.forename@ + " "@ + input.name@ + ". Best wishes for '"@ + input.wish@
        + "' on "@ + input.birthdate@ + "!"@
}

pub open spec fn blunt_greeting(input: PersonalData) -> Seq<char> {
    "If '"@ + input.wish@ + "' takes longer than expected, you'll still have to do some work yourself, "@
        + input.name@ + "."@
}

/// The greeter tool: both messages for `input`.
pub fn greeter_tool(input: PersonalData) -> (r: Message)
    ensures
        r.nice_message@ == nice_greeting(input),
        r.notso_nice_message@ == blunt_greeting(input),
{
    let mut nice = owned("Hello, ");
    push_str(&mut nice, input.forename.as_str());
    push_str(&mut nice, " ");
    push_str(&mut nice, input.name.as_str());
    push_str(&mut nice, ". Best wishes for '");
    push_str(&mut nice, input.wish.as_str());
    push_str(&mut nice, "' on ");
    push_str(&mut nice, input.birthdate.as_str());
    push_str(&mut nice, "!");
    let mut blunt = owned("If '");
    push_str(&mut blunt, input.wish.as_str());
    push_str(
        &mut blunt,
        "' takes longer than expected, you'll still have to do some work yourself, ",
    );
    push_str(&mut blunt, input.name.as_str());
    push_str(&mut blunt, ".");
    Message { nice_message: nice, notso_nice_message: blunt }
}

} // verus!
