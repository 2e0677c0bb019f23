use vstd::prelude::*;

verus! {

/// The greeter service.
#[derive(Debug, Default)]
pub struct GreeterImpl {}

impl GreeterImpl {
    /// The greeting for `name`.
    pub fn say_hello(&self, name: &str) -> (message: String)
        ensures
            message@ == "Hello "@ + name@ + "!"@,
    {
        let mut message = "Hello ".to_owned();
        message.append(name);
        message.append("!");
        message
    }
}

} // verus!
