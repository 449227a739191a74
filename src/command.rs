//! Commands of the recorded pipeline topology that the layout is fed from.
use vstd::prelude::*;

verus! {

/// The component kinds a remove command can take off an entity.
#[derive(Debug, Clone, Copy, PartialEq, Eq, Structural)]
pub enum Remove {
    Node,
    Edge,
    State,
    Name,
    TypeName,
    Properties,
    Port,
    Child,
}

/// The component kind whose type is called `name`, if there is one.
pub open spec fn remove_kind_named(name: Seq<char>) -> Option<Remove> {
    if name == "Node"@ {
        Some(Remove::Node)
    } else if name == "Edge"@ {
        Some(Remove::Edge)
    } else if name == "State"@ {
        Some(Remove::State)
    } else if name == "Name"@ {
        Some(Remove::Name)
    } else if name == "TypeName"@ {
        Some(Remove::TypeName)
    } else if name == "Properties"@ {
        Some(Remove::Properties)
    } else if name == "Port"@ {
        Some(Remove::Port)
    } else if name == "Child"@ {
        Some(Remove::Child)
    } else {
        None
    }
}

fn same_text(a: &str, b: &str) -> (r: bool)
    ensures
        r == (a@ == b@),
{
    let a = a.to_owned();
    let b = b.to_owned();
    a.eq(&b)
}

impl Remove {
    /// The remove command for the component type called `name`; `None` for
    /// a type that is not a component.
    pub fn from_type_name(name: &str) -> (r: Option<Remove>)
        ensures
            r == remove_kind_named(name@),
    {
        if same_text(name, "Node") {
            Some(Remove::Node)
        } else if same_text(name, "Edge") {
            Some(Remove::Edge)
        } else if same_text(name, "State") {
            Some(Remove::State)
        } else if same_text(name, "Name") {
            Some(Remove::Name)
        } else if same_text(name, "TypeName") {
            Some(Remove::TypeName)
        } else if same_text(name, "Properties") {
            Some(Remove::Properties)
        } else if same_text(name, "Port") {
            Some(Remove::Port)
        } else if same_text(name, "Child") {
            Some(Remove::Child)
        } else {
            None
        }
    }
}

} // verus!
