//! A theme file the user has added, and the edits the user can make to it.
use vstd::prelude::*;

use crate::decimal::{decimal, push_decimal};
use crate::version::LiveVersion;

verus! {

/// A theme file: its name, its text, the Live version its text is written
/// for, and the version to convert it to. A file whose `to_version` is `None`
/// is the result of a conversion: it is no longer converted, only shown and
/// downloaded.
#[derive(Clone, Debug, PartialEq)]
pub struct Ask {
    pub name: String,
    pub contents: String,
    pub version: LiveVersion,
    pub to_version: Option<LiveVersion>,
}

/// A file's name and text.
#[derive(Clone, Debug, PartialEq)]
pub struct FileInfo {
    pub name: String,
    pub contents: String,
}

impl Ask {
    /// Whether this file is a conversion result rather than a file to convert.
    pub open spec fn converted(self) -> bool {
        self.to_version is None
    }

    /// A freshly uploaded file named `name` with text `contents`. Its version is
    /// the one `detected` in its text, or Live 12 where none was; it is to be
    /// converted to `default_to`.
    pub fn uploaded(
        name: String,
        contents: String,
        detected: Option<LiveVersion>,
        default_to: LiveVersion,
    ) -> (ask: Ask)
        ensures
            ask.name == name,
            ask.contents == contents,
            ask.version == (match detected {
                Some(v) => v,
                None => LiveVersion::Live12,
            }),
            ask.to_version == Some(default_to),
    {
        let version = match detected {
            Some(v) => v,
            None => LiveVersion::Live12,
        };
        Ask { name, contents, version, to_version: Some(default_to) }
    }

    /// Whether this file is a conversion result: such a file can be downloaded,
    /// its text cannot be edited, and it offers no version selectors.
    pub fn is_converted(&self) -> (b: bool)
        ensures
            b == self.converted(),
    {
        self.to_version.is_none()
    }

    /// This file with the version it is read as set to `version`.
    pub fn with_version(&self, version: LiveVersion) -> (ask: Ask)
        ensures
            ask == (Ask { version, ..*self }),
    {
        Ask {
            name: self.name.clone(),
            contents: self.contents.clone(),
            version,
            to_version: self.to_version,
        }
    }

    /// This file with the version to convert it to set to `to_version`.
    pub fn with_to_version(&self, to_version: LiveVersion) -> (ask: Ask)
        ensures
            ask == (Ask { to_version: Some(to_version), ..*self }),
    {
        Ask {
            name: self.name.clone(),
            contents: self.contents.clone(),
            version: self.version,
            to_version: Some(to_version),
        }
    }

    /// This file with its text replaced by `contents`.
    pub fn with_contents(&self, contents: String) -> (ask: Ask)
        ensures
            ask == (Ask { contents, ..*self }),
    {
        Ask {
            name: self.name.clone(),
            contents,
            version: self.version,
            to_version: self.to_version,
        }
    }

    /// The note shown on a conversion result: `Converted to Live ` and the
    /// major number of its version.
    pub fn converted_label(&self) -> (s: String)
        ensures
            s@ == "Converted to Live "@ + decimal(self.version.number() as nat),
    {
        let mut s = String::from_str("Converted to Live ");
        push_decimal(&mut s, self.version.as_u8() as u64);
        s
    }
}

} // verus!
