use arx_utils::{
    cmd_cp, cmd_diff, cmd_rm, collect_all_paths, colors_off, find_element_ranges,
    find_package_ranges, ls_collect, normalise_path, parse_cp_args, parse_rm_args, CpGroup,
};

// ---------------------------------------------------------------------------
// Shared ARXML fixtures
// ---------------------------------------------------------------------------

/// Minimal ARXML with a flat list of three top-level packages.
const FLAT_ARXML: &str = r#"<?xml version="1.0" encoding="UTF-8"?>
<AUTOSAR xmlns="http://autosar.org/schema/r4.0">
  <AR-PACKAGES>
    <AR-PACKAGE>
      <SHORT-NAME>Alpha</SHORT-NAME>
    </AR-PACKAGE>
    <AR-PACKAGE>
      <SHORT-NAME>Beta</SHORT-NAME>
    </AR-PACKAGE>
    <AR-PACKAGE>
      <SHORT-NAME>Gamma</SHORT-NAME>
    </AR-PACKAGE>
  </AR-PACKAGES>
</AUTOSAR>
"#;

/// ARXML with nested packages and ELEMENTS entries.
const NESTED_ARXML: &str = r#"<?xml version="1.0" encoding="UTF-8"?>
<AUTOSAR xmlns="http://autosar.org/schema/r4.0">
  <AR-PACKAGES>
    <AR-PACKAGE>
      <SHORT-NAME>Root</SHORT-NAME>
      <AR-PACKAGES>
        <AR-PACKAGE>
          <SHORT-NAME>Components</SHORT-NAME>
          <ELEMENTS>
            <APPLICATION-SW-COMPONENT-TYPE>
              <SHORT-NAME>MyComponent</SHORT-NAME>
            </APPLICATION-SW-COMPONENT-TYPE>
          </ELEMENTS>
        </AR-PACKAGE>
        <AR-PACKAGE>
          <SHORT-NAME>Interfaces</SHORT-NAME>
          <ELEMENTS>
            <SENDER-RECEIVER-INTERFACE>
              <SHORT-NAME>MySRInterface</SHORT-NAME>
            </SENDER-RECEIVER-INTERFACE>
          </ELEMENTS>
        </AR-PACKAGE>
      </AR-PACKAGES>
    </AR-PACKAGE>
    <AR-PACKAGE>
      <SHORT-NAME>Types</SHORT-NAME>
    </AR-PACKAGE>
  </AR-PACKAGES>
</AUTOSAR>
"#;

fn s(s: &str) -> String {
    s.to_string()
}

fn strs(v: &[&str]) -> Vec<String> {
    v.iter().map(|x| x.to_string()).collect()
}

/// Every package, at any depth (the old `ls -R`).
fn packages(input: &[u8]) -> Vec<String> {
    ls_collect(input, None, None, &[], &strs(&["AR-PACKAGE"])).unwrap()
}

/// The SHORT-NAMEs of the top-level AR-PACKAGEs of a document.
fn toplevel_package_names(input: &[u8]) -> Vec<String> {
    ls_collect(input, None, Some(1), &[], &strs(&["AR-PACKAGE"]))
        .unwrap()
        .into_iter()
        .map(|p| p.trim_start_matches('/').to_string())
        .collect()
}

// ---------------------------------------------------------------------------
// normalise_path
// ---------------------------------------------------------------------------

#[test]
fn normalise_path_strips_leading_slash() {
    assert_eq!(normalise_path("/Root/Components"), "Root/Components");
}

#[test]
fn normalise_path_no_slash_unchanged() {
    assert_eq!(normalise_path("Root/Components"), "Root/Components");
}

#[test]
fn normalise_path_strips_whitespace() {
    assert_eq!(normalise_path("  /Root  "), "Root");
}

#[test]
fn normalise_path_empty_string() {
    assert_eq!(normalise_path(""), "");
}

// ---------------------------------------------------------------------------
// parse_cp_args
// ---------------------------------------------------------------------------

#[test]
fn parse_cp_args_single_group() {
    let args = vec![s("/Root/Alpha"), s("--into"), s("out.arxml")];
    let (groups, rest) = parse_cp_args(&args).ok().unwrap();
    assert_eq!(groups.len(), 1);
    assert_eq!(groups[0].packages, vec!["Root/Alpha"]);
    assert_eq!(groups[0].output, "out.arxml");
    assert!(rest.is_none(), "expected no rest file, got {:?}", rest);
}

#[test]
fn parse_cp_args_multiple_packages_one_group() {
    let args = vec![s("/Alpha"), s("/Beta"), s("--into"), s("out.arxml")];
    let (groups, _) = parse_cp_args(&args).ok().unwrap();
    assert_eq!(groups.len(), 1);
    assert_eq!(groups[0].packages, vec!["Alpha", "Beta"]);
}

#[test]
fn parse_cp_args_multiple_groups() {
    let args = vec![
        s("/Alpha"), s("--into"), s("a.arxml"),
        s("/Beta"),  s("--into"), s("b.arxml"),
    ];
    let (groups, rest) = parse_cp_args(&args).ok().unwrap();
    assert_eq!(groups.len(), 2);
    assert_eq!(groups[0].packages, vec!["Alpha"]);
    assert_eq!(groups[0].output, "a.arxml");
    assert_eq!(groups[1].packages, vec!["Beta"]);
    assert_eq!(groups[1].output, "b.arxml");
    assert!(rest.is_none());
}

#[test]
fn parse_cp_args_with_rest() {
    let args = vec![
        s("/Alpha"), s("--into"), s("a.arxml"),
        s("--rest"), s("remainder.arxml"),
    ];
    let (groups, rest) = parse_cp_args(&args).ok().unwrap();
    assert_eq!(groups.len(), 1);
    assert_eq!(rest, Some(s("remainder.arxml")));
}

#[test]
fn parse_cp_args_normalises_paths() {
    // Paths with and without leading slash should both be normalised.
    let args = vec![s("Root/Alpha"), s("--into"), s("out.arxml")];
    let (groups, _) = parse_cp_args(&args).ok().unwrap();
    assert_eq!(groups[0].packages, vec!["Root/Alpha"]);
}

// ---------------------------------------------------------------------------
// ls_collect
// ---------------------------------------------------------------------------

#[test]
fn ls_flat_no_filter_no_recursive() {
    let result = ls_collect(FLAT_ARXML.as_bytes(), None, Some(1), &[], &strs(&["AR-PACKAGE"])).unwrap();
    assert_eq!(result, vec!["/Alpha", "/Beta", "/Gamma"]);
}

#[test]
fn ls_nested_no_filter_non_recursive_shows_only_toplevel() {
    let result = ls_collect(NESTED_ARXML.as_bytes(), None, Some(1), &[], &strs(&["AR-PACKAGE"])).unwrap();
    // Depth 1 below the implicit root: only the top-level packages.
    assert_eq!(result, vec!["/Root", "/Types"]);
}

#[test]
fn ls_nested_recursive_shows_all_packages() {
    let result = packages(NESTED_ARXML.as_bytes());
    assert_eq!(result, vec!["/Root", "/Root/Components", "/Root/Interfaces", "/Types"]);
}

#[test]
fn ls_filter_shows_direct_children_only() {
    // The direct children of /Root, without /Root itself.
    let result = ls_collect(NESTED_ARXML.as_bytes(), Some("/Root/*"), Some(0), &[], &strs(&["AR-PACKAGE"])).unwrap();
    assert_eq!(result, vec!["/Root/Components", "/Root/Interfaces"]);
}

#[test]
fn ls_filter_recursive_shows_root_and_all_descendants() {
    // With unlimited depth and filter /Root, the filter path itself is
    // included together with all of its descendants.
    let result = ls_collect(NESTED_ARXML.as_bytes(), Some("/Root"), None, &[], &strs(&["AR-PACKAGE"])).unwrap();
    assert_eq!(result, vec!["/Root", "/Root/Components", "/Root/Interfaces"]);
}

#[test]
fn ls_filter_non_matching_returns_empty() {
    let result = ls_collect(NESTED_ARXML.as_bytes(), Some("/DoesNotExist"), None, &[], &strs(&["AR-PACKAGE"])).unwrap();
    assert!(result.is_empty());
}

#[test]
fn ls_show_elements_includes_element_names() {
    // Filter /Root/Components, one level down, every node type.
    let result = ls_collect(NESTED_ARXML.as_bytes(), Some("/Root/Components"), Some(1), &[], &[]).unwrap();
    assert!(result.contains(&"/Root/Components/MyComponent".to_string()),
        "Expected /Root/Components/MyComponent in {:?}", result);
}

#[test]
fn ls_show_elements_recursive_includes_all_elements() {
    let result = ls_collect(NESTED_ARXML.as_bytes(), None, None, &[], &[]).unwrap();
    assert!(result.contains(&"/Root/Components/MyComponent".to_string()));
    assert!(result.contains(&"/Root/Interfaces/MySRInterface".to_string()));
}

// ---------------------------------------------------------------------------
// find_package_ranges
// ---------------------------------------------------------------------------

#[test]
fn find_package_ranges_finds_toplevel_package() {
    let raw = FLAT_ARXML.as_bytes();
    let ranges = find_package_ranges(raw, &strs(&["Alpha"])).unwrap();

    assert_eq!(ranges.len(), 1);
    assert_eq!(ranges[0].path, "Alpha");

    // Verify the extracted bytes are valid XML containing the right SHORT-NAME.
    let block = std::str::from_utf8(&raw[ranges[0].start as usize..ranges[0].end as usize]).unwrap();
    assert!(block.contains("<SHORT-NAME>Alpha</SHORT-NAME>"), "block: {}", block);
    assert!(block.trim_start().starts_with("<AR-PACKAGE>"), "block: {}", block);
    assert!(block.trim_end().ends_with("</AR-PACKAGE>"), "block: {}", block);
}

#[test]
fn find_package_ranges_finds_multiple_packages() {
    let ranges = find_package_ranges(FLAT_ARXML.as_bytes(), &strs(&["Alpha", "Gamma"])).unwrap();

    assert_eq!(ranges.len(), 2);
    let paths: Vec<&str> = ranges.iter().map(|r| r.path.as_str()).collect();
    assert!(paths.contains(&"Alpha"));
    assert!(paths.contains(&"Gamma"));
}

#[test]
fn find_package_ranges_nested_package() {
    let raw = NESTED_ARXML.as_bytes();
    let ranges = find_package_ranges(raw, &strs(&["Root/Components"])).unwrap();

    assert_eq!(ranges.len(), 1);
    let block = std::str::from_utf8(&raw[ranges[0].start as usize..ranges[0].end as usize]).unwrap();
    assert!(block.contains("MyComponent"));
}

#[test]
fn find_package_ranges_unknown_package_returns_empty() {
    let ranges = find_package_ranges(FLAT_ARXML.as_bytes(), &strs(&["DoesNotExist"])).unwrap();
    assert!(ranges.is_empty());
}

// ---------------------------------------------------------------------------
// cmd_cp
// ---------------------------------------------------------------------------

#[test]
fn cmd_cp_single_package_produces_valid_arxml() {
    let groups = vec![CpGroup {
        packages: vec!["Alpha".to_string()],
        output: "out.arxml".to_string(),
    }];
    let plan = cmd_cp(FLAT_ARXML.as_bytes(), &groups, false).ok().unwrap();

    // Output must be valid enough for ls_collect to parse.
    let names = toplevel_package_names(&plan.outputs[0].bytes);
    assert_eq!(names, vec!["Alpha"]);
}

#[test]
fn cmd_cp_multiple_packages_into_one_file() {
    let groups = vec![CpGroup {
        packages: vec!["Alpha".to_string(), "Gamma".to_string()],
        output: "out.arxml".to_string(),
    }];
    let plan = cmd_cp(FLAT_ARXML.as_bytes(), &groups, false).ok().unwrap();

    let names = toplevel_package_names(&plan.outputs[0].bytes);
    assert_eq!(names, vec!["Alpha", "Gamma"]);
}

#[test]
fn cmd_cp_split_into_two_files() {
    let groups = vec![
        CpGroup { packages: vec!["Alpha".to_string()], output: "a.arxml".to_string() },
        CpGroup { packages: vec!["Beta".to_string()],  output: "b.arxml".to_string() },
    ];
    let plan = cmd_cp(FLAT_ARXML.as_bytes(), &groups, false).ok().unwrap();

    assert_eq!(toplevel_package_names(&plan.outputs[0].bytes), vec!["Alpha"]);
    assert_eq!(toplevel_package_names(&plan.outputs[1].bytes), vec!["Beta"]);
}

#[test]
fn cmd_cp_rest_file_contains_unmatched_packages() {
    let groups = vec![CpGroup {
        packages: vec!["Alpha".to_string()],
        output: "a.arxml".to_string(),
    }];
    let plan = cmd_cp(FLAT_ARXML.as_bytes(), &groups, true).ok().unwrap();

    // Alpha was extracted; Beta and Gamma should be in the rest file.
    let rest_names = toplevel_package_names(plan.rest.as_ref().unwrap());
    assert!(!rest_names.contains(&"Alpha".to_string()), "Alpha must not appear in rest");
    assert!(rest_names.contains(&"Beta".to_string()));
    assert!(rest_names.contains(&"Gamma".to_string()));
}

#[test]
fn cmd_cp_rest_file_is_complete_partition() {
    // Every top-level package must end up in exactly one output file.
    let groups = vec![
        CpGroup { packages: vec!["Alpha".to_string()], output: "a.arxml".to_string() },
        CpGroup { packages: vec!["Beta".to_string()],  output: "b.arxml".to_string() },
    ];
    let plan = cmd_cp(FLAT_ARXML.as_bytes(), &groups, true).ok().unwrap();

    let mut all: Vec<String> = Vec::new();
    all.extend(toplevel_package_names(&plan.outputs[0].bytes));
    all.extend(toplevel_package_names(&plan.outputs[1].bytes));
    all.extend(toplevel_package_names(plan.rest.as_ref().unwrap()));
    all.sort();

    assert_eq!(all, vec!["Alpha", "Beta", "Gamma"]);
}

#[test]
fn cmd_cp_preserves_nested_content() {
    // Copying a top-level package that contains sub-packages must preserve them.
    let groups = vec![CpGroup {
        packages: vec!["Root".to_string()],
        output: "out.arxml".to_string(),
    }];
    let plan = cmd_cp(NESTED_ARXML.as_bytes(), &groups, false).ok().unwrap();

    // Sub-packages of Root must still be present.
    let names = packages(&plan.outputs[0].bytes);
    assert!(names.contains(&"/Root/Components".to_string()));
    assert!(names.contains(&"/Root/Interfaces".to_string()));
}

// ---------------------------------------------------------------------------
// parse_rm_args
// ---------------------------------------------------------------------------

#[test]
fn parse_rm_args_single_package() {
    let args = vec![s("/Alpha")];
    let pkgs = parse_rm_args(&args);
    assert_eq!(pkgs, vec!["Alpha"]);
}

#[test]
fn parse_rm_args_multiple_packages() {
    let args = vec![s("/Alpha"), s("/Beta")];
    let pkgs = parse_rm_args(&args);
    assert_eq!(pkgs, vec!["Alpha", "Beta"]);
}

#[test]
fn parse_rm_args_normalises_paths() {
    let args = vec![s("Root/Components"), s("/Root/Interfaces")];
    let pkgs = parse_rm_args(&args);
    assert_eq!(pkgs, vec!["Root/Components", "Root/Interfaces"]);
}

// ---------------------------------------------------------------------------
// cmd_rm
// ---------------------------------------------------------------------------

#[test]
fn cmd_rm_removes_single_package_in_place() {
    let out = cmd_rm(FLAT_ARXML.as_bytes(), &[s("Alpha")]).unwrap();

    let names = toplevel_package_names(&out.bytes);
    assert!(!names.contains(&"Alpha".to_string()), "Alpha should have been removed");
    assert!(names.contains(&"Beta".to_string()));
    assert!(names.contains(&"Gamma".to_string()));
}

#[test]
fn cmd_rm_removes_multiple_packages_in_place() {
    let out = cmd_rm(FLAT_ARXML.as_bytes(), &[s("Alpha"), s("Beta")]).unwrap();

    let names = toplevel_package_names(&out.bytes);
    assert!(!names.contains(&"Alpha".to_string()));
    assert!(!names.contains(&"Beta".to_string()));
    assert_eq!(names, vec!["Gamma"]);
}

#[test]
fn cmd_rm_result_is_valid_arxml() {
    let out = cmd_rm(FLAT_ARXML.as_bytes(), &[s("Beta")]).unwrap();

    // ls_collect must parse the result without errors
    let names = toplevel_package_names(&out.bytes);
    assert_eq!(names, vec!["Alpha", "Gamma"]);
}

#[test]
fn cmd_rm_with_leading_slash_normalised() {
    // parse_rm_args normalises the leading slash before cmd_rm is called
    let pkgs = parse_rm_args(&[s("/Gamma")]);
    let out = cmd_rm(FLAT_ARXML.as_bytes(), &pkgs).unwrap();

    let names = toplevel_package_names(&out.bytes);
    assert!(!names.contains(&"Gamma".to_string()));
}

#[test]
fn cmd_rm_preserves_remaining_package_content() {
    let out = cmd_rm(NESTED_ARXML.as_bytes(), &[s("Types")]).unwrap();

    let names = packages(&out.bytes);
    assert!(names.contains(&"/Root".to_string()));
    assert!(names.contains(&"/Root/Components".to_string()));
    assert!(names.contains(&"/Root/Interfaces".to_string()));
    assert!(!names.contains(&"/Types".to_string()));
}

// ---------------------------------------------------------------------------
// find_element_ranges
// ---------------------------------------------------------------------------

#[test]
fn find_element_ranges_finds_element_by_full_path() {
    let raw = NESTED_ARXML.as_bytes();
    let ranges = find_element_ranges(raw, &strs(&["Root/Components/MyComponent"])).unwrap();

    assert_eq!(ranges.len(), 1);
    assert_eq!(ranges[0].path, "Root/Components/MyComponent");

    let block = std::str::from_utf8(&raw[ranges[0].start as usize..ranges[0].end as usize]).unwrap();
    assert!(block.contains("MyComponent"), "block: {}", block);
    assert!(block.contains("APPLICATION-SW-COMPONENT-TYPE"), "block: {}", block);
}

#[test]
fn find_element_ranges_unknown_element_returns_empty() {
    let ranges = find_element_ranges(NESTED_ARXML.as_bytes(), &strs(&["Root/Components/DoesNotExist"])).unwrap();
    assert!(ranges.is_empty());
}

// ---------------------------------------------------------------------------
// cmd_rm with elements
// ---------------------------------------------------------------------------

#[test]
fn cmd_rm_removes_element_from_package() {
    let pkgs = parse_rm_args(&[s("Root/Components/MyComponent")]);
    let out = cmd_rm(NESTED_ARXML.as_bytes(), &pkgs).unwrap();

    // Package must still exist
    let names = packages(&out.bytes);
    assert!(names.contains(&"/Root/Components".to_string()));

    // Element must be gone
    let elements = ls_collect(&out.bytes, Some("/Root/Components"), Some(1), &[], &[]).unwrap();
    assert!(!elements.contains(&"/Root/Components/MyComponent".to_string()),
        "MyComponent should have been removed, got: {:?}", elements);
}

#[test]
fn cmd_rm_element_leaves_sibling_elements_intact() {
    // Remove MyComponent from Components, MySRInterface in Interfaces must survive
    let pkgs = parse_rm_args(&[s("Root/Components/MyComponent")]);
    let out = cmd_rm(NESTED_ARXML.as_bytes(), &pkgs).unwrap();

    let elements = ls_collect(&out.bytes, Some("/Root/Interfaces"), Some(1), &[], &[]).unwrap();
    assert!(elements.contains(&"/Root/Interfaces/MySRInterface".to_string()),
        "MySRInterface should still be present, got: {:?}", elements);
}

#[test]
fn cmd_rm_element_result_is_valid_arxml() {
    let pkgs = parse_rm_args(&[s("Root/Interfaces/MySRInterface")]);
    let out = cmd_rm(NESTED_ARXML.as_bytes(), &pkgs).unwrap();

    // ls_collect must be able to parse the result without errors
    let names = packages(&out.bytes);
    assert!(names.contains(&"/Root".to_string()));
    assert!(names.contains(&"/Root/Interfaces".to_string()));
}

// ---------------------------------------------------------------------------
// collect_all_paths / cmd_diff
// ---------------------------------------------------------------------------

/// FLAT_ARXML with only Alpha and Beta (Gamma removed) — used as "file B" in diff tests.
const FLAT_ARXML_AB: &str = r#"<?xml version="1.0" encoding="UTF-8"?>
<AUTOSAR xmlns="http://autosar.org/schema/r4.0">
  <AR-PACKAGES>
    <AR-PACKAGE>
      <SHORT-NAME>Alpha</SHORT-NAME>
    </AR-PACKAGE>
    <AR-PACKAGE>
      <SHORT-NAME>Beta</SHORT-NAME>
    </AR-PACKAGE>
  </AR-PACKAGES>
</AUTOSAR>
"#;

/// NESTED_ARXML variant: Root/Components has an extra element NewComp, MySRInterface removed.
const NESTED_ARXML_MODIFIED: &str = r#"<?xml version="1.0" encoding="UTF-8"?>
<AUTOSAR xmlns="http://autosar.org/schema/r4.0">
  <AR-PACKAGES>
    <AR-PACKAGE>
      <SHORT-NAME>Root</SHORT-NAME>
      <AR-PACKAGES>
        <AR-PACKAGE>
          <SHORT-NAME>Components</SHORT-NAME>
          <ELEMENTS>
            <APPLICATION-SW-COMPONENT-TYPE>
              <SHORT-NAME>MyComponent</SHORT-NAME>
            </APPLICATION-SW-COMPONENT-TYPE>
            <APPLICATION-SW-COMPONENT-TYPE>
              <SHORT-NAME>NewComp</SHORT-NAME>
            </APPLICATION-SW-COMPONENT-TYPE>
          </ELEMENTS>
        </AR-PACKAGE>
        <AR-PACKAGE>
          <SHORT-NAME>Interfaces</SHORT-NAME>
        </AR-PACKAGE>
      </AR-PACKAGES>
    </AR-PACKAGE>
    <AR-PACKAGE>
      <SHORT-NAME>Types</SHORT-NAME>
    </AR-PACKAGE>
  </AR-PACKAGES>
</AUTOSAR>
"#;

fn diff_identical(a: &str, b: &str) -> bool {
    cmd_diff(a.as_bytes(), b.as_bytes(), "a.arxml", "b.arxml", None, &colors_off()).unwrap().identical
}

#[test]
fn collect_all_paths_returns_packages_and_elements() {
    let paths = collect_all_paths(NESTED_ARXML.as_bytes(), None).unwrap();
    assert!(paths.contains(&"/Root".to_string()));
    assert!(paths.contains(&"/Root/Components".to_string()));
    assert!(paths.contains(&"/Root/Components/MyComponent".to_string()));
    assert!(paths.contains(&"/Root/Interfaces/MySRInterface".to_string()));
    assert!(paths.contains(&"/Types".to_string()));
}

#[test]
fn cmd_diff_identical_files_returns_true() {
    assert!(diff_identical(FLAT_ARXML, FLAT_ARXML));
}

#[test]
fn cmd_diff_detects_removed_package() {
    // Alpha, Beta, Gamma against Alpha, Beta only
    assert!(!diff_identical(FLAT_ARXML, FLAT_ARXML_AB), "files differ, should return false");
}

#[test]
fn cmd_diff_detects_added_package() {
    // Alpha, Beta against Alpha, Beta, Gamma
    assert!(!diff_identical(FLAT_ARXML_AB, FLAT_ARXML));
}

#[test]
fn cmd_diff_detects_element_changes() {
    // MySRInterface removed, NewComp added — files differ
    assert!(!diff_identical(NESTED_ARXML, NESTED_ARXML_MODIFIED));
}

#[test]
fn cmd_diff_order_independent() {
    // Same packages in different order must be considered identical.
    let reversed = r#"<?xml version="1.0" encoding="UTF-8"?>
<AUTOSAR xmlns="http://autosar.org/schema/r4.0">
  <AR-PACKAGES>
    <AR-PACKAGE>
      <SHORT-NAME>Gamma</SHORT-NAME>
    </AR-PACKAGE>
    <AR-PACKAGE>
      <SHORT-NAME>Beta</SHORT-NAME>
    </AR-PACKAGE>
    <AR-PACKAGE>
      <SHORT-NAME>Alpha</SHORT-NAME>
    </AR-PACKAGE>
  </AR-PACKAGES>
</AUTOSAR>
"#;
    assert!(diff_identical(FLAT_ARXML, reversed), "same packages in different order should be identical");
}
