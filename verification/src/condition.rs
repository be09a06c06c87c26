//! Condition expressions: server-evaluated boolean preconditions attached
//! to a write, built as opaque expression text.

use vstd::prelude::*;
use vstd::string::StringExecFns;

verus! {

/// An opaque, immutable condition expression, handed verbatim to the wire
/// protocol's condition field.
#[derive(Debug)]
pub struct Condition {
    data: String,
}

impl View for Condition {
    type V = Seq<char>;

    closed spec fn view(&self) -> Seq<char> {
        self.data@
    }
}

impl Condition {
    /// A condition holding exactly the given expression text.
    fn new(data: &str) -> (r: Condition)
        ensures
            r@ == data@,
    {
        Condition { data: data.to_owned() }
    }

    /// The condition that the named attribute exists.
    pub fn attribute_exists(attr: &str) -> (r: Condition)
        ensures
            r@ == "attribute_exists("@ + attr@ + ")"@,
    {
        let mut text = String::from_str("attribute_exists(");
        text.append(attr);
        text.append(")");
        Condition::new(text.as_str())
    }

    /// The condition that the named attribute does not exist.
    pub fn attribute_not_exists(attr: &str) -> (r: Condition)
        ensures
            r@ == "attribute_not_exists("@ + attr@ + ")"@,
    {
        let mut text = String::from_str("attribute_not_exists(");
        text.append(attr);
        text.append(")");
        Condition::new(text.as_str())
    }

    /// The raw expression text this condition carries.
    pub fn to_raw_string(&self) -> (r: String)
        ensures
            r@ == self@,
    {
        self.data.clone()
    }
}

} // verus!
