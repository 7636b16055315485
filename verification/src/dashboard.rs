//! The properties the dashboard's plot components are given.

use vstd::prelude::*;

use crate::results::ResultFiles;

verus! {

/// Three flags a plot is given along with its files, passed through to the
/// descriptions of the plotted runs.
#[derive(Debug, Clone, Copy)]
pub struct DescriptionFlags {
    flags: (bool, bool, bool),
}

impl DescriptionFlags {
    /// The three flags.
    pub closed spec fn flags_view(&self) -> (bool, bool, bool) {
        self.flags
    }

    /// The flags `first`, `second` and `third`.
    pub fn from(first: bool, second: bool, third: bool) -> (d: Self)
        ensures
            d.flags_view() == (first, second, third),
    {
        DescriptionFlags { flags: (first, second, third) }
    }

    /// The three flags.
    pub fn flags(&self) -> (f: (bool, bool, bool))
        ensures
            f == self.flags_view(),
    {
        self.flags
    }
}

/// A plot of the given result files, under a name.
pub struct ResultFilesPlotProps {
    pub name: String,
    pub result_files: ResultFiles,
    pub description_flags: DescriptionFlags,
}

/// A plot of the latest files of a run.
pub struct StaticPlotProps {
    pub run_id: String,
    pub description_flags: DescriptionFlags,
}

/// A plot of a run, with the settings to filter it by.
pub struct PlotWithSettingsProps {
    pub selected_run: String,
}

} // verus!
