use vstd::prelude::*;
use vstd::string::StringExecFns;

verus! {

/// Type of a profile
#[derive(Clone, Copy, Debug, PartialEq, Eq, Structural)]
pub enum ProfileType {
    /// One parameter fixed, the rest are free
    Conditional,
    /// All parameters are fixed
    Frozen,
}

/// A point on a profile
#[derive(Debug)]
pub struct ProfilePoint<F> {
    /// Value of the parameter
    pub param: F,
    /// Value of the cost function
    pub cost: F,
}

/// The word that describes profiles of the type in the headers.
pub open spec fn description_prefix_of(profile_type: ProfileType) -> Seq<char> {
    match profile_type {
        ProfileType::Conditional => "Conditional"@,
        ProfileType::Frozen => "Frozen"@,
    }
}

/// The word that starts the names of the files of profiles of the type.
pub open spec fn file_prefix_of(profile_type: ProfileType) -> Seq<char> {
    match profile_type {
        ProfileType::Conditional => "conditional"@,
        ProfileType::Frozen => "frozen"@,
    }
}

impl ProfileType {
    /// The word that describes profiles of this type in the headers
    pub fn description_prefix(&self) -> (prefix: &'static str)
        ensures
            prefix@ == description_prefix_of(*self),
    {
        match *self {
            ProfileType::Conditional => "Conditional",
            ProfileType::Frozen => "Frozen",
        }
    }

    /// The word that starts the names of the files of profiles of this type
    pub fn file_prefix(&self) -> (prefix: &'static str)
        ensures
            prefix@ == file_prefix_of(*self),
    {
        match *self {
            ProfileType::Conditional => "conditional",
            ProfileType::Frozen => "frozen",
        }
    }

    /// The name (without extension) of the files that hold the profile of
    /// the parameter: the file prefix, `_profile_` and the parameter's name
    pub fn file_name(&self, param_name: &str) -> (name: String)
        ensures
            name@ == file_prefix_of(*self) + "_profile_"@ + param_name@,
    {
        let mut name = String::from_str(self.file_prefix());
        name.append("_profile_");
        name.append(param_name);
        name
    }
}

} // verus!
