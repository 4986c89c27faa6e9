use vstd::prelude::*;
use crate::sys::new_uuid_string;

verus! {

/// A point or span of time, in whole seconds.  Timestamps count seconds since
/// the Unix epoch.
#[derive(Clone, Copy, Debug, PartialEq, Eq, Structural)]
pub enum Period {
    Instant { value: i64 },
    Range { start: i64, end: i64 },
    /// Defined for interchange but matched by no hook's evaluation logic;
    /// kept as a reserved shape.
    Duration { seconds: u64 },
}

/// A single time- or usage-based condition a policy imposes on access.
#[derive(Clone, Copy, Debug, PartialEq, Eq, Structural)]
pub enum Hook {
    OnlyBefore { period: Period },
    OnlyAfter { period: Period },
    OnlyWithin { period: Period },
    /// Valid for the given number of seconds after the credential's creation.
    OnlyFor { duration_secs: u64 },
}

/// The mathematical content of a [`Policy`].
#[verifier::ext_equal]
pub ghost struct PolicyV {
    pub id: Seq<char>,
    pub hooks: Seq<Hook>,
    pub timezone: Option<Seq<char>>,
    pub clock_skew_secs: u64,
    pub max_attempts: Option<u32>,
    pub single_use: bool,
    pub version: u32,
}

/// An access policy: an ordered sequence of hooks, all of which must pass,
/// preceded by a single-use gate and a usage ceiling.
///
/// `timezone` and `clock_skew_secs` are carried and persisted but are not
/// applied by the evaluation algorithm: they are advisory fields, kept
/// reserved rather than given a guessed meaning.
#[derive(Clone, Debug)]
pub struct Policy {
    pub id: String,
    pub hooks: Vec<Hook>,
    pub timezone: Option<String>,
    pub clock_skew_secs: u64,
    pub max_attempts: Option<u32>,
    pub single_use: bool,
    pub version: u32,
}

impl View for Policy {
    type V = PolicyV;

    open spec fn view(&self) -> PolicyV {
        PolicyV {
            id: self.id@,
            hooks: self.hooks@,
            timezone: match self.timezone {
                Some(tz) => Some(tz@),
                None => None,
            },
            clock_skew_secs: self.clock_skew_secs,
            max_attempts: self.max_attempts,
            single_use: self.single_use,
            version: self.version,
        }
    }
}

impl Default for Policy {
    /// A fresh policy: random id, no hooks, advisory timezone "UTC", a
    /// 60-second advisory skew, no usage ceiling, multi-use, version 1.
    fn default() -> (r: Policy)
        ensures
            r@.id.len() == 36,
            r@.hooks.len() == 0,
            r@.timezone matches Some(tz) && tz == "UTC"@,
            r@.clock_skew_secs == 60,
            r@.max_attempts is None,
            !r@.single_use,
            r@.version == 1,
    {
        Policy {
            id: new_uuid_string(),
            hooks: Vec::new(),
            timezone: Some(String::from_str("UTC")),
            clock_skew_secs: 60,
            max_attempts: None,
            single_use: false,
            version: 1,
        }
    }
}

impl Policy {
    /// A fresh policy under the given id, otherwise as [`Policy::default`].
    pub fn new(id: String) -> (r: Policy)
        ensures
            r@.id == id@,
            r@.hooks.len() == 0,
            r@.timezone matches Some(tz) && tz == "UTC"@,
            r@.clock_skew_secs == 60,
            r@.max_attempts is None,
            !r@.single_use,
            r@.version == 1,
    {
        Policy {
            id,
            hooks: Vec::new(),
            timezone: Some(String::from_str("UTC")),
            clock_skew_secs: 60,
            max_attempts: None,
            single_use: false,
            version: 1,
        }
    }

    /// Appends one hook, keeping declaration order, and hands the policy back
    /// in builder style.
    pub fn add_hook(self, hook: Hook) -> (r: Policy)
        ensures
            r@.id == self@.id,
            r@.hooks == self@.hooks.push(hook),
            r@.timezone == self@.timezone,
            r@.clock_skew_secs == self@.clock_skew_secs,
            r@.max_attempts == self@.max_attempts,
            r@.single_use == self@.single_use,
            r@.version == self@.version,
    {
        let mut p = self;
        p.hooks.push(hook);
        p
    }
}

} // verus!
