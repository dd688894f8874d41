//! Choosing the formats that a compile run writes.

use vstd::prelude::*;
use crate::corpus::{container_formats, Format, DEFAULT_PREFIX};
use crate::paths::{components, join, path_parts, path_text, push_parts, render_path};

verus! {

/// The output formats asked for: one format only, or every container but
/// those turned off.
#[derive(Debug, Clone, Copy)]
pub struct OutputSelection {
    /// Write only this format (source included).
    pub format: Option<Format>,
    pub no_trickydata: bool,
    pub no_zip: bool,
    pub no_json_bin: bool,
}

/// Why the selection of output formats is unusable.
#[derive(Debug, Clone, Copy, PartialEq, Eq)]
pub enum SelectionError {
    /// `--format` names a format that its own `--no-...` flag turns off.
    ConflictsWithOwnFlag(Format),
    /// Every output format is turned off.
    AllDisabled,
}

impl OutputSelection {
    /// Whether a format is turned off by its `--no-...` flag.
    pub open spec fn disabled_spec(self, format: Format) -> bool {
        match format {
            Format::Trickydata => self.no_trickydata,
            Format::Zip => self.no_zip,
            Format::JsonBin => self.no_json_bin,
            Format::Source => false,
        }
    }

    /// Whether a format is turned off by its `--no-...` flag.
    pub fn disabled(&self, format: Format) -> (b: bool)
        ensures
            b == self.disabled_spec(format),
    {
        match format {
            Format::Trickydata => self.no_trickydata,
            Format::Zip => self.no_zip,
            Format::JsonBin => self.no_json_bin,
            Format::Source => false,
        }
    }

    /// The containers not turned off, in preference order.
    pub open spec fn remaining_containers(self) -> Seq<Format> {
        container_formats().filter(|f: Format| !self.disabled_spec(f))
    }

    /// The formats to write: exactly the one `--format` names, or else every
    /// container not turned off, in preference order.
    pub fn enabled_formats(&self) -> (r: Result<Vec<Format>, SelectionError>)
        ensures
            match self.format {
                Some(only) => if self.disabled_spec(only) {
                    r matches Err(e) && e == SelectionError::ConflictsWithOwnFlag(only)
                } else {
                    r matches Ok(v) && v@ == seq![only]
                },
                None => if self.remaining_containers().len() == 0 {
                    r matches Err(e) && e == SelectionError::AllDisabled
                } else {
                    r matches Ok(v) && v@ == self.remaining_containers()
                },
            },
    {
        if let Some(only) = self.format {
            if self.disabled(only) {
                return Err(SelectionError::ConflictsWithOwnFlag(only));
            }
            let v = vec![only];
            assert(v@ =~= seq![only]);
            return Ok(v);
        }
        let containers = Format::containers();
        let mut formats: Vec<Format> = Vec::new();
        let mut i: usize = 0;
        let ghost keep = |f: Format| !self.disabled_spec(f);
        assert(container_formats().take(0).filter(keep) =~= Seq::<Format>::empty());
        while i < containers.len()
            invariant
                i <= containers@.len(),
                containers@ == container_formats(),
                keep == (|f: Format| !self.disabled_spec(f)),
                formats@ == container_formats().take(i as int).filter(keep),
            decreases containers.len() - i,
        {
            let f = containers[i];
            proof {
                reveal_with_fuel(Seq::filter, 1);
                assert(container_formats().take(i + 1).drop_last() =~= container_formats().take(i as int));
            }
            if !self.disabled(f) {
                formats.push(f);
            }
            i = i + 1;
        }
        assert(container_formats().take(3) =~= container_formats());
        if formats.len() == 0 {
            return Err(SelectionError::AllDisabled);
        }
        Ok(formats)
    }
}

/// Where a compile run writes `format` under `output_dir`: the directory
/// itself for the source tree, the artifact prefix inside it otherwise.
pub open spec fn output_location_spec(format: Format, output_dir: Seq<char>) -> Seq<char> {
    match format {
        Format::Source => output_dir,
        _ => path_text(push_parts(path_parts(output_dir), path_parts(DEFAULT_PREFIX@))),
    }
}

/// Where a compile run writes `format` under `output_dir`.
pub fn output_location(format: Format, output_dir: &str) -> (r: String)
    ensures
        r@ == output_location_spec(format, output_dir@),
{
    match format {
        Format::Source => output_dir.to_owned(),
        _ => render_path(&join(&components(output_dir), &components(DEFAULT_PREFIX))),
    }
}

} // verus!
