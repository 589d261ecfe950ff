//! Verified core of the ARXML command-line utilities: listing, copying,
//! removing and comparing the `AR-PACKAGE`s and elements of AUTOSAR XML
//! documents.
pub mod text;
pub mod xml;
pub mod path_match;
pub mod tree;
pub mod ls;
pub mod range;
pub mod util;
pub mod cp;
pub mod rm;
pub mod order;
pub mod fields;
pub mod diff;

pub use cp::{cmd_cp, parse_cp_args, CpArgsError, CpError, CpGroup, CpOutput, CpPlan};
pub use diff::{
    cmd_diff, cmd_diff_extended, collect_all_paths, colors_off, colors_on, Colors, DiffOutcome,
    ElementChange, ExtendedDiffOutcome, FieldChange,
};
pub use fields::{collect_all_element_fields, collect_element_fields};
pub use ls::{cmd_ls, ls_collect};
pub use range::{
    collect_root_attrs, find_all_toplevel_package_ranges, find_element_ranges,
    find_package_ranges, PackageRange,
};
pub use rm::{cmd_rm, parse_rm_args, RmPlan};
pub use text::normalise_path;
