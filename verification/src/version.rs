//! The Ableton Live versions a theme can be read as or converted to, and the
//! choices offered for them in a version selector.
use vstd::prelude::*;

use crate::decimal::{decimal, decimal_string, lemma_parse_decimal, parse_u8, parsed_u8};

verus! {

/// A version of Ableton Live whose theme format the converter knows.
#[derive(Clone, Copy, Debug, PartialEq, Eq, Structural)]
pub enum LiveVersion {
    Live10,
    Live11,
    Live12,
}

/// The versions in the order a selector offers them.
pub open spec fn all_versions() -> Seq<LiveVersion> {
    seq![LiveVersion::Live10, LiveVersion::Live11, LiveVersion::Live12]
}

impl LiveVersion {
    /// The major version number: 10, 11 or 12.
    pub open spec fn number(self) -> u8 {
        match self {
            LiveVersion::Live10 => 10,
            LiveVersion::Live11 => 11,
            LiveVersion::Live12 => 12,
        }
    }

    /// The version with major number `n`, if there is one.
    pub open spec fn with_number(n: u8) -> Option<LiveVersion> {
        if n == 10 {
            Some(LiveVersion::Live10)
        } else if n == 11 {
            Some(LiveVersion::Live11)
        } else if n == 12 {
            Some(LiveVersion::Live12)
        } else {
            None
        }
    }

    /// The version that a selector's option value `value` names: the value read
    /// as a `u8`, then taken as a major version number.
    pub open spec fn named_by(value: Seq<char>) -> Option<LiveVersion> {
        match parsed_u8(value) {
            Some(n) => Self::with_number(n),
            None => None,
        }
    }

    /// The major version number (`version as u8`).
    pub fn as_u8(self) -> (n: u8)
        ensures
            n == self.number(),
    {
        match self {
            LiveVersion::Live10 => 10,
            LiveVersion::Live11 => 11,
            LiveVersion::Live12 => 12,
        }
    }

    /// The version with major number `n`; `None` for any other number.
    pub fn from_u8(n: u8) -> (v: Option<LiveVersion>)
        ensures
            v == Self::with_number(n),
    {
        if n == 10 {
            Some(LiveVersion::Live10)
        } else if n == 11 {
            Some(LiveVersion::Live11)
        } else if n == 12 {
            Some(LiveVersion::Live12)
        } else {
            None
        }
    }

    /// The value a selector option carries for this version: its major number
    /// in decimal.
    pub fn option_value(self) -> (s: String)
        ensures
            s@ == decimal(self.number() as nat),
    {
        decimal_string(self.as_u8() as u64)
    }

    /// The version a selector's chosen value stands for; `None` where the value
    /// is not a number in `u8` range or not the number of a known version.
    pub fn from_option_value(value: &str) -> (v: Option<LiveVersion>)
        ensures
            v == Self::named_by(value@),
    {
        match parse_u8(value) {
            Some(n) => Self::from_u8(n),
            None => None,
        }
    }

    /// The text shown for this version: `Live ` and the major number.
    pub fn label(self) -> (s: String)
        ensures
            s@ == "Live "@ + decimal(self.number() as nat),
    {
        let mut s = String::from_str("Live ");
        crate::decimal::push_decimal(&mut s, self.as_u8() as u64);
        s
    }
}

/// All known versions, oldest first.
pub fn all() -> (vs: Vec<LiveVersion>)
    ensures
        vs@ == all_versions(),
{
    let mut vs = Vec::new();
    vs.push(LiveVersion::Live10);
    vs.push(LiveVersion::Live11);
    vs.push(LiveVersion::Live12);
    assert(vs@ =~= all_versions());
    vs
}

/// A version's major number names it, and no other number names a version.
pub proof fn lemma_number_names_version(v: LiveVersion, n: u8)
    ensures
        LiveVersion::with_number(v.number()) == Some(v),
        LiveVersion::with_number(n) == Some(v) <==> n == v.number(),
{
}

/// The value an option carries for a version is read back as that version.
pub proof fn lemma_option_value_roundtrip(v: LiveVersion)
    ensures
        LiveVersion::named_by(decimal(v.number() as nat)) == Some(v),
{
    lemma_parse_decimal(v.number());
}

/// One option of a version selector.
pub struct VersionOption {
    pub version: LiveVersion,
    /// The value the option submits.
    pub value: String,
    /// The text the option shows.
    pub label: String,
    /// Whether the option is the one chosen.
    pub selected: bool,
}

/// The options of a version selector whose current value is `current`: one per
/// known version, oldest first, each marked selected exactly when it is
/// `current`.
pub fn version_options(current: LiveVersion) -> (opts: Vec<VersionOption>)
    ensures
        opts.len() == all_versions().len(),
        forall|i: int|
            0 <= i < opts.len() ==> {
                let o = #[trigger] opts[i];
                &&& o.version == all_versions()[i]
                &&& o.value@ == decimal(o.version.number() as nat)
                &&& o.label@ == "Live "@ + decimal(o.version.number() as nat)
                &&& o.selected == (o.version == current)
            },
{
    let versions = all();
    let mut opts: Vec<VersionOption> = Vec::new();
    for i in 0..versions.len()
        invariant
            versions@ == all_versions(),
            opts.len() == i,
            forall|j: int|
                0 <= j < i ==> {
                    let o = #[trigger] opts[j];
                    &&& o.version == all_versions()[j]
                    &&& o.value@ == decimal(o.version.number() as nat)
                    &&& o.label@ == "Live "@ + decimal(o.version.number() as nat)
                    &&& o.selected == (o.version == current)
                },
    {
        let v = versions[i];
        opts.push(VersionOption {
            version: v,
            value: v.option_value(),
            label: v.label(),
            selected: v == current,
        });
    }
    opts
}

/// Whatever the current value, a selector offers each version once and marks
/// exactly one option, the current version's, as selected.
pub proof fn lemma_one_option_selected(current: LiveVersion, opts: Seq<VersionOption>)
    requires
        opts.len() == all_versions().len(),
        forall|i: int|
            0 <= i < opts.len() ==> (#[trigger] opts[i]).version == all_versions()[i] && opts[i].selected
                == (opts[i].version == current),
    ensures
        exists|i: int| 0 <= i < opts.len() && (#[trigger] opts[i]).selected && opts[i].version == current,
        forall|i: int, j: int|
            0 <= i < opts.len() && 0 <= j < opts.len() && (#[trigger] opts[i]).selected
                && (#[trigger] opts[j]).selected ==> i == j,
        forall|i: int, j: int|
            0 <= i < opts.len() && 0 <= j < opts.len() && i != j ==> (#[trigger] opts[i]).version
                != (#[trigger] opts[j]).version,
{
    let k: int = match current {
        LiveVersion::Live10 => 0,
        LiveVersion::Live11 => 1,
        LiveVersion::Live12 => 2,
    };
    assert(opts[k].selected);
}

} // verus!
