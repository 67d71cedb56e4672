//! The schema of a chain's events: which modules there are, which events
//! each of them emits, and what the type of each event argument is called.

use vstd::prelude::*;

verus! {

/// One event of a module: its name and the type names of its arguments, in
/// the order in which the arguments stand on the wire.
#[derive(Debug)]
pub struct EventSchema {
    pub name: String,
    pub arguments: Vec<String>,
}

/// One module: the discriminator that stands for it on the wire, its name,
/// and its events. An event's discriminator is its place in `events`.
#[derive(Debug)]
pub struct ModuleSchema {
    pub index: u8,
    pub name: String,
    pub events: Vec<EventSchema>,
}

/// The schema as the decoder reads it. It is never changed by decoding.
#[derive(Debug)]
pub struct MetadataIndex {
    pub modules: Vec<ModuleSchema>,
}

impl ModuleSchema {
    /// The event that `variant` stands for.
    pub open spec fn event_spec(&self, variant: u8) -> Option<EventSchema> {
        if variant < self.events@.len() {
            Some(self.events@[variant as int])
        } else {
            None
        }
    }

    /// The event that `variant` stands for.
    pub fn event(&self, variant: u8) -> (found: Option<&EventSchema>)
        ensures
            match found {
                Some(event) => self.event_spec(variant) == Some(*event),
                None => self.event_spec(variant) is None,
            },
    {
        if (variant as usize) < self.events.len() {
            Some(&self.events[variant as usize])
        } else {
            None
        }
    }
}

impl MetadataIndex {
    /// Whether `modules[at]` is the first module that carries `index`.
    pub open spec fn is_first_with(&self, index: u8, at: int) -> bool {
        &&& 0 <= at < self.modules@.len()
        &&& self.modules@[at].index == index
        &&& forall|before: int| 0 <= before < at ==> self.modules@[before].index != index
    }

    /// The module that `index` stands for: the first one that carries it.
    pub open spec fn module_spec(&self, index: u8) -> Option<ModuleSchema> {
        if exists|at: int| self.is_first_with(index, at) {
            Some(self.modules@[choose|at: int| self.is_first_with(index, at)])
        } else {
            None
        }
    }

    /// The module that `index` stands for.
    pub fn module(&self, index: u8) -> (found: Option<&ModuleSchema>)
        ensures
            match found {
                Some(module) => self.module_spec(index) == Some(*module),
                None => self.module_spec(index) is None,
            },
    {
        let mut i: usize = 0;
        while i < self.modules.len()
            invariant
                i <= self.modules@.len(),
                forall|before: int| 0 <= before < i ==> self.modules@[before].index != index,
            decreases self.modules@.len() - i,
        {
            if self.modules[i].index == index {
                assert(self.is_first_with(index, i as int));
                return Some(&self.modules[i]);
            }
            i = i + 1;
        }
        None
    }
}

} // verus!
