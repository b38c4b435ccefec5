use vstd::prelude::*;
use crate::error::YariError;
use crate::text::{eq_lowercase, lower_seq};

verus! {

/// One of the supported engine modules.
#[derive(Copy, Clone, Debug, PartialEq, Eq, Hash, Structural)]
pub enum Module {
    Cuckoo,
    Dotnet,
    Elf,
    Hash,
    Magic,
    Math,
    Pe,
    Time,
}

/// All currently active modules, in their canonical order.
pub fn modules() -> (r: Vec<Module>)
    ensures
        r@ == seq![
            Module::Cuckoo,
            Module::Dotnet,
            Module::Elf,
            Module::Hash,
            Module::Magic,
            Module::Math,
            Module::Pe,
            Module::Time,
        ],
{
    let mut v: Vec<Module> = Vec::new();
    v.push(Module::Cuckoo);
    v.push(Module::Dotnet);
    v.push(Module::Elf);
    v.push(Module::Hash);
    v.push(Module::Magic);
    v.push(Module::Math);
    v.push(Module::Pe);
    v.push(Module::Time);
    assert(v@ =~= seq![
        Module::Cuckoo,
        Module::Dotnet,
        Module::Elf,
        Module::Hash,
        Module::Magic,
        Module::Math,
        Module::Pe,
        Module::Time,
    ]);
    v
}

/// The module named by `s`, compared after ASCII lower-casing.
pub open spec fn spec_module_from(s: Seq<char>) -> Option<Module> {
    let low = lower_seq(s);
    if low == "cuckoo"@ {
        Some(Module::Cuckoo)
    } else if low == "dotnet"@ {
        Some(Module::Dotnet)
    } else if low == "elf"@ {
        Some(Module::Elf)
    } else if low == "hash"@ {
        Some(Module::Hash)
    } else if low == "magic"@ {
        Some(Module::Magic)
    } else if low == "math"@ {
        Some(Module::Math)
    } else if low == "pe"@ {
        Some(Module::Pe)
    } else if low == "time"@ {
        Some(Module::Time)
    } else {
        None
    }
}

/// The canonical name of module `m`.
pub open spec fn spec_module_name(m: Module) -> Seq<char> {
    match m {
        Module::Cuckoo => "cuckoo"@,
        Module::Dotnet => "dotnet"@,
        Module::Elf => "elf"@,
        Module::Hash => "hash"@,
        Module::Magic => "magic"@,
        Module::Math => "math"@,
        Module::Pe => "pe"@,
        Module::Time => "time"@,
    }
}

impl Module {
    /// Parse a module name, case-insensitively for ASCII letters.
    pub fn from_str(s: &str) -> (r: Result<Module, YariError>)
        ensures
            match spec_module_from(s@) {
                Some(m) => r == Ok::<Module, YariError>(m),
                None => r matches Err(YariError::UnknownModule(n)) && n@ == s@,
            },
    {
        if eq_lowercase(s, "cuckoo") {
            Ok(Module::Cuckoo)
        } else if eq_lowercase(s, "dotnet") {
            Ok(Module::Dotnet)
        } else if eq_lowercase(s, "elf") {
            Ok(Module::Elf)
        } else if eq_lowercase(s, "hash") {
            Ok(Module::Hash)
        } else if eq_lowercase(s, "magic") {
            Ok(Module::Magic)
        } else if eq_lowercase(s, "math") {
            Ok(Module::Math)
        } else if eq_lowercase(s, "pe") {
            Ok(Module::Pe)
        } else if eq_lowercase(s, "time") {
            Ok(Module::Time)
        } else {
            Err(YariError::UnknownModule(String::from_str(s)))
        }
    }

    /// The canonical (lower-case) name of this module.
    pub fn as_ref(&self) -> (r: &'static str)
        ensures
            r@ == spec_module_name(*self),
    {
        match self {
            Module::Cuckoo => "cuckoo",
            Module::Dotnet => "dotnet",
            Module::Elf => "elf",
            Module::Hash => "hash",
            Module::Magic => "magic",
            Module::Math => "math",
            Module::Pe => "pe",
            Module::Time => "time",
        }
    }
}

} // verus!
