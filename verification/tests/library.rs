use arx_utils::cp::CpError;
use arx_utils::path_match::{path_under_pattern, wildcard_match};
use arx_utils::{
    cmd_cp, cmd_diff, cmd_diff_extended, cmd_ls, cmd_rm, collect_all_element_fields,
    collect_all_paths, collect_element_fields, collect_root_attrs, colors_off, colors_on,
    find_all_toplevel_package_ranges, find_element_ranges, find_package_ranges, ls_collect,
    normalise_path, parse_cp_args, CpArgsError, CpGroup,
};

const FLAT_ARXML: &str = r#"<?xml version="1.0" encoding="UTF-8"?>
<AUTOSAR xmlns="http://autosar.org/schema/r4.0">
  <AR-PACKAGES>
    <AR-PACKAGE>
      <SHORT-NAME>Alpha</SHORT-NAME>
    </AR-PACKAGE>
    <AR-PACKAGE>
      <SHORT-NAME>Beta</SHORT-NAME>
    </AR-PACKAGE>
    <AR-PACKAGE>
      <SHORT-NAME>Gamma</SHORT-NAME>
    </AR-PACKAGE>
  </AR-PACKAGES>
</AUTOSAR>
"#;

const NESTED_ARXML: &str = r#"<?xml version="1.0" encoding="UTF-8"?>
<AUTOSAR xmlns="http://autosar.org/schema/r4.0">
  <AR-PACKAGES>
    <AR-PACKAGE>
      <SHORT-NAME>Root</SHORT-NAME>
      <AR-PACKAGES>
        <AR-PACKAGE>
          <SHORT-NAME>Components</SHORT-NAME>
          <ELEMENTS>
            <APPLICATION-SW-COMPONENT-TYPE>
              <SHORT-NAME>MyComponent</SHORT-NAME>
            </APPLICATION-SW-COMPONENT-TYPE>
          </ELEMENTS>
        </AR-PACKAGE>
        <AR-PACKAGE>
          <SHORT-NAME>Interfaces</SHORT-NAME>
          <ELEMENTS>
            <SENDER-RECEIVER-INTERFACE>
              <SHORT-NAME>MySRInterface</SHORT-NAME>
            </SENDER-RECEIVER-INTERFACE>
          </ELEMENTS>
        </AR-PACKAGE>
      </AR-PACKAGES>
    </AR-PACKAGE>
    <AR-PACKAGE>
      <SHORT-NAME>Types</SHORT-NAME>
    </AR-PACKAGE>
  </AR-PACKAGES>
</AUTOSAR>
"#;

const FLAT_ARXML_AB: &str = r#"<?xml version="1.0" encoding="UTF-8"?>
<AUTOSAR xmlns="http://autosar.org/schema/r4.0">
  <AR-PACKAGES>
    <AR-PACKAGE>
      <SHORT-NAME>Alpha</SHORT-NAME>
    </AR-PACKAGE>
    <AR-PACKAGE>
      <SHORT-NAME>Beta</SHORT-NAME>
    </AR-PACKAGE>
  </AR-PACKAGES>
</AUTOSAR>
"#;

/// A package with one element whose fields differ between the two versions.
const FIELDS_A: &str = r#"<?xml version="1.0" encoding="UTF-8"?>
<AUTOSAR xmlns="http://autosar.org/schema/r4.0">
  <AR-PACKAGES>
    <AR-PACKAGE>
      <SHORT-NAME>Root</SHORT-NAME>
      <ELEMENTS>
        <APPLICATION-SW-COMPONENT-TYPE>
          <SHORT-NAME>Comp</SHORT-NAME>
          <CATEGORY>APPLICATION</CATEGORY>
          <DESC>old</DESC>
          <PORTS>
            <P-PORT>
              <SHORT-NAME>P1</SHORT-NAME>
            </P-PORT>
          </PORTS>
        </APPLICATION-SW-COMPONENT-TYPE>
      </ELEMENTS>
    </AR-PACKAGE>
  </AR-PACKAGES>
</AUTOSAR>
"#;

const FIELDS_B: &str = r#"<?xml version="1.0" encoding="UTF-8"?>
<AUTOSAR xmlns="http://autosar.org/schema/r4.0">
  <AR-PACKAGES>
    <AR-PACKAGE>
      <SHORT-NAME>Root</SHORT-NAME>
      <ELEMENTS>
        <APPLICATION-SW-COMPONENT-TYPE>
          <SHORT-NAME>Comp</SHORT-NAME>
          <ADMIN-DATA>x</ADMIN-DATA>
          <CATEGORY>COMPOSITION</CATEGORY>
          <PORTS>
            <P-PORT>
              <SHORT-NAME>P1</SHORT-NAME>
            </P-PORT>
          </PORTS>
        </APPLICATION-SW-COMPONENT-TYPE>
      </ELEMENTS>
    </AR-PACKAGE>
  </AR-PACKAGES>
</AUTOSAR>
"#;

/// A document whose end tag does not match its start tag.
const MALFORMED: &str = "<AUTOSAR><AR-PACKAGES></AR-PACKAGE></AUTOSAR>";

fn strs(v: &[&str]) -> Vec<String> {
    v.iter().map(|x| x.to_string()).collect()
}

fn chars(s: &str) -> Vec<char> {
    s.chars().collect()
}

fn matches(pattern: &str, text: &str) -> bool {
    wildcard_match(&chars(pattern), &chars(text))
}

fn under(path: &str, pattern: &str) -> bool {
    path_under_pattern(&chars(path), &chars(pattern))
}

const HEADER: &str = "<?xml version=\"1.0\" encoding=\"UTF-8\"?>\n<AUTOSAR xmlns=\"http://autosar.org/schema/r4.0\">\n  <AR-PACKAGES>\n";
const FOOTER: &str = "  </AR-PACKAGES>\n</AUTOSAR>\n";

fn block(name: &str) -> String {
    format!("\n    <AR-PACKAGE>\n      <SHORT-NAME>{}</SHORT-NAME>\n    </AR-PACKAGE>\n", name)
}

// ---------------------------------------------------------------------------
// wildcard matching
// ---------------------------------------------------------------------------

#[test]
fn wildcard_star_matches_everything() {
    assert!(matches("*", ""));
    assert!(matches("*", "abc"));
    assert!(matches("*", "a/b/c"));
}

#[test]
fn wildcard_literal_matches_only_itself() {
    assert!(matches("abc", "abc"));
    assert!(!matches("abc", "abd"));
    assert!(!matches("abc", "ab"));
    assert!(!matches("abc", "abcd"));
    assert!(matches("", ""));
    assert!(!matches("", "a"));
}

#[test]
fn wildcard_star_spans_slashes() {
    assert!(matches("ComponentTypes/Dummy*", "ComponentTypes/Dummy1/Inner"));
    assert!(matches("a*c", "a/b/c"));
    assert!(!matches("a*c", "a/b/d"));
}

#[test]
fn wildcard_star_in_text_is_matched_by_star() {
    // A `*` in the text is an ordinary character that a pattern `*` absorbs.
    assert!(matches("a*", "a*b"));
    assert!(matches("*b", "a*b"));
    assert!(matches("a*b", "a*b"));
    assert!(matches("a*b*", "a*b*"));
    assert!(matches("a*b", "a*xb"));
}

#[test]
fn wildcard_backtracks_over_partial_matches() {
    assert!(matches("*ab", "aab"));
    assert!(matches("a*a*a", "aaaa"));
    assert!(!matches("a*a*a", "aa"));
    assert!(matches("**x", "yx"));
}

#[test]
fn path_under_pattern_segment_wildcards_stay_in_segment() {
    assert!(under("/Root/A", "/Root/*"));
    assert!(under("/Root/A/B", "/Root/*"));
    assert!(!under("/Root", "/Root/*"));
    assert!(under("/Root", "Root"));
    assert!(!under("/Root", "/Ro"));
    assert!(under("/Root/Cluster/V1/Channel1", "/Root/*/V1"));
    assert!(!under("/Other/Cluster/V1", "/Root/*/V1"));
}

#[test]
fn path_is_under_itself() {
    for p in ["/Root", "/Root/A*", "Root/x/y", "/", ""] {
        assert!(under(p, p), "{} should be under itself", p);
    }
}

// ---------------------------------------------------------------------------
// normalise_path and whitespace
// ---------------------------------------------------------------------------

#[test]
fn normalise_path_leading_slash_ignored() {
    for p in ["Root", "Root/A", "", "x y", "A/"] {
        assert_eq!(normalise_path(&format!("/{}", p)), normalise_path(p));
    }
    assert_eq!(normalise_path("///Root"), "Root");
}

#[test]
fn normalise_path_trims_unicode_whitespace() {
    assert_eq!(normalise_path("\u{3000}/Root\u{85}\t"), "Root");
    assert_eq!(normalise_path("\u{2007}Root"), "Root");
    assert_eq!(normalise_path("\u{200b}Root"), "\u{200b}Root");
}

#[test]
fn whitespace_trimming_agrees_with_char_is_whitespace() {
    for code in 0u32..0x3100 {
        if let Some(c) = char::from_u32(code) {
            let input = format!("{}x", c);
            let expected = if c.is_whitespace() || c == '/' { "x".to_string() } else { input.clone() };
            assert_eq!(normalise_path(&input), expected, "character U+{:04X}", code);
        }
    }
}

// ---------------------------------------------------------------------------
// ls
// ---------------------------------------------------------------------------

#[test]
fn ls_lists_everything_by_default() {
    let result = ls_collect(NESTED_ARXML.as_bytes(), None, None, &[], &[]).unwrap();
    assert_eq!(result, vec![
        "/Root",
        "/Root/Components",
        "/Root/Components/MyComponent",
        "/Root/Interfaces",
        "/Root/Interfaces/MySRInterface",
        "/Types",
    ]);
}

#[test]
fn ls_depth_zero_lists_only_the_match() {
    let result = ls_collect(NESTED_ARXML.as_bytes(), Some("/Root/Components"), Some(0), &[], &[]).unwrap();
    assert_eq!(result, vec!["/Root/Components"]);
    let none = ls_collect(NESTED_ARXML.as_bytes(), None, Some(0), &[], &[]).unwrap();
    assert!(none.is_empty());
}

#[test]
fn ls_depth_counts_levels_below_the_filter() {
    let result = ls_collect(NESTED_ARXML.as_bytes(), Some("Root"), Some(1), &[], &[]).unwrap();
    assert_eq!(result, vec!["/Root", "/Root/Components", "/Root/Interfaces"]);
}

#[test]
fn ls_exclude_covers_descendants() {
    let result = ls_collect(NESTED_ARXML.as_bytes(), None, None, &strs(&["/Root/Components"]), &[]).unwrap();
    assert_eq!(result, vec!["/Root", "/Root/Interfaces", "/Root/Interfaces/MySRInterface", "/Types"]);
}

#[test]
fn ls_exclude_wildcard_spans_slashes() {
    let result = ls_collect(NESTED_ARXML.as_bytes(), None, None, &strs(&["/R*"]), &[]).unwrap();
    assert_eq!(result, vec!["/Types"]);
    let result = ls_collect(NESTED_ARXML.as_bytes(), None, None, &strs(&["*Interface*"]), &[]).unwrap();
    assert_eq!(result, vec!["/Root", "/Root/Components", "/Root/Components/MyComponent", "/Types"]);
}

#[test]
fn ls_type_filter_selects_tags() {
    let result = ls_collect(NESTED_ARXML.as_bytes(), None, None, &[], &strs(&["SENDER-RECEIVER-INTERFACE", "APPLICATION-SW-COMPONENT-TYPE"])).unwrap();
    assert_eq!(result, vec!["/Root/Components/MyComponent", "/Root/Interfaces/MySRInterface"]);
}

#[test]
fn ls_unescapes_names() {
    let doc = "<AUTOSAR><AR-PACKAGES><AR-PACKAGE><SHORT-NAME>A&amp;B</SHORT-NAME></AR-PACKAGE></AR-PACKAGES></AUTOSAR>";
    assert_eq!(ls_collect(doc.as_bytes(), None, None, &[], &[]).unwrap(), vec!["/A&B"]);
}

#[test]
fn ls_reads_non_ascii_names() {
    let doc = "<AUTOSAR><AR-PACKAGES><AR-PACKAGE><SHORT-NAME>Größe</SHORT-NAME></AR-PACKAGE></AR-PACKAGES></AUTOSAR>";
    assert_eq!(ls_collect(doc.as_bytes(), None, None, &[], &[]).unwrap(), vec!["/Größe"]);
}

#[test]
fn ls_rejects_malformed_xml() {
    assert!(ls_collect(MALFORMED.as_bytes(), None, None, &[], &[]).is_none());
    assert!(cmd_ls(MALFORMED.as_bytes(), None, None, &[], &[]).is_none());
}

#[test]
fn cmd_ls_prints_one_path_per_line() {
    let text = cmd_ls(FLAT_ARXML.as_bytes(), None, None, &[], &[]).unwrap();
    assert_eq!(text, "/Alpha\n/Beta\n/Gamma\n");
    let empty = cmd_ls(FLAT_ARXML.as_bytes(), Some("/Nothing"), None, &[], &[]).unwrap();
    assert_eq!(empty, "");
}

// ---------------------------------------------------------------------------
// ranges and root attributes
// ---------------------------------------------------------------------------

#[test]
fn root_attrs_are_collected() {
    let attrs = collect_root_attrs(FLAT_ARXML.as_bytes());
    assert_eq!(attrs, vec![("xmlns".to_string(), "http://autosar.org/schema/r4.0".to_string())]);
    let doc = "<AUTOSAR a=\"1 &lt; 2\" b='x'><AR-PACKAGES/></AUTOSAR>";
    assert_eq!(collect_root_attrs(doc.as_bytes()), vec![
        ("a".to_string(), "1 < 2".to_string()),
        ("b".to_string(), "x".to_string()),
    ]);
    assert!(collect_root_attrs(b"<OTHER/>").is_empty());
}

#[test]
fn toplevel_ranges_cover_each_package_block() {
    let raw = FLAT_ARXML.as_bytes();
    let ranges = find_all_toplevel_package_ranges(raw).unwrap();
    let paths: Vec<&str> = ranges.iter().map(|r| r.path.as_str()).collect();
    assert_eq!(paths, vec!["Alpha", "Beta", "Gamma"]);
    for (r, name) in ranges.iter().zip(["Alpha", "Beta", "Gamma"]) {
        let text = std::str::from_utf8(&raw[r.start as usize..r.end as usize]).unwrap();
        assert_eq!(text, block(name).trim_end_matches('\n'));
    }
    let nested = find_all_toplevel_package_ranges(NESTED_ARXML.as_bytes()).unwrap();
    let paths: Vec<&str> = nested.iter().map(|r| r.path.as_str()).collect();
    assert_eq!(paths, vec!["Root", "Types"]);
}

#[test]
fn ranges_refuse_malformed_xml() {
    assert!(find_package_ranges(MALFORMED.as_bytes(), &strs(&["A"])).is_none());
    assert!(find_element_ranges(MALFORMED.as_bytes(), &strs(&["A/B"])).is_none());
    assert!(find_all_toplevel_package_ranges(MALFORMED.as_bytes()).is_none());
}

#[test]
fn element_ranges_ignore_packages() {
    let ranges = find_element_ranges(NESTED_ARXML.as_bytes(), &strs(&["Root/Components"])).unwrap();
    assert!(ranges.is_empty());
}

// ---------------------------------------------------------------------------
// cp
// ---------------------------------------------------------------------------

#[test]
fn parse_cp_args_errors() {
    assert!(matches!(parse_cp_args(&strs(&["/A", "--into"])), Err(CpArgsError::IntoWithoutFile)));
    assert!(matches!(parse_cp_args(&strs(&["/A", "--into", "a", "--rest"])), Err(CpArgsError::RestWithoutFile)));
    match parse_cp_args(&strs(&["/A", "--into", "a", "/B", "C"])) {
        Err(CpArgsError::PackagesWithoutTarget(p)) => assert_eq!(p, vec!["/B", "C"]),
        _ => panic!("expected PackagesWithoutTarget"),
    }
}

#[test]
fn parse_cp_args_later_rest_wins() {
    let (groups, rest) = parse_cp_args(&strs(&["--rest", "r1", "A", "--into", "a", "--rest", "r2"])).ok().unwrap();
    assert_eq!(groups.len(), 1);
    assert_eq!(rest, Some("r2".to_string()));
    let (groups, rest) = parse_cp_args(&[]).ok().unwrap();
    assert!(groups.is_empty() && rest.is_none());
}

#[test]
fn cmd_cp_writes_exact_bytes() {
    let groups = vec![CpGroup { packages: strs(&["/Alpha", "Gamma", "Nope"]), output: "o.arxml".to_string() }];
    // The library compares the paths as given; parse_cp_args normalises them.
    let groups2 = vec![CpGroup { packages: strs(&["Alpha", "Gamma", "Nope"]), output: "o.arxml".to_string() }];
    let plan = cmd_cp(FLAT_ARXML.as_bytes(), &groups2, true).ok().unwrap();
    let expected = format!("{}{}{}{}", HEADER, block("Alpha"), block("Gamma"), FOOTER);
    assert_eq!(String::from_utf8(plan.outputs[0].bytes.clone()).unwrap(), expected);
    assert_eq!(plan.outputs[0].output, "o.arxml");
    assert_eq!(plan.outputs[0].missing, vec!["Nope"]);
    let rest = format!("{}{}{}", HEADER, block("Beta"), FOOTER);
    assert_eq!(String::from_utf8(plan.rest.unwrap()).unwrap(), rest);
    // A leading slash is not stripped by cmd_cp itself.
    let plan = cmd_cp(FLAT_ARXML.as_bytes(), &groups, false).ok().unwrap();
    assert_eq!(plan.outputs[0].missing, vec!["/Alpha", "Nope"]);
    assert!(plan.rest.is_none());
}

#[test]
fn cmd_cp_errors() {
    let groups = vec![CpGroup { packages: strs(&["Nope"]), output: "o".to_string() }];
    assert!(matches!(cmd_cp(FLAT_ARXML.as_bytes(), &groups, false), Err(CpError::NoMatchingPackages)));
    assert!(matches!(cmd_cp(MALFORMED.as_bytes(), &groups, false), Err(CpError::Xml)));
}

#[test]
fn cmd_cp_nested_package_is_copied_whole() {
    let groups = vec![CpGroup { packages: strs(&["Root/Interfaces"]), output: "o".to_string() }];
    let plan = cmd_cp(NESTED_ARXML.as_bytes(), &groups, true).ok().unwrap();
    let out = plan.outputs[0].bytes.clone();
    assert_eq!(ls_collect(&out, None, None, &[], &[]).unwrap(), vec!["/Interfaces", "/Interfaces/MySRInterface"]);
    // The rest file holds every top-level package whose start was not copied.
    let rest = plan.rest.unwrap();
    assert_eq!(ls_collect(&rest, None, Some(1), &[], &[]).unwrap(), vec!["/Root", "/Types"]);
}

// ---------------------------------------------------------------------------
// rm
// ---------------------------------------------------------------------------

#[test]
fn cmd_rm_writes_exact_bytes() {
    let out = cmd_rm(FLAT_ARXML.as_bytes(), &strs(&["Beta"])).unwrap();
    let expected = format!("{}{}{}{}", HEADER, block("Alpha"), block("Gamma"), FOOTER);
    assert_eq!(String::from_utf8(out.bytes).unwrap(), expected);
    assert!(out.any_removed);
}

#[test]
fn cmd_rm_of_nothing_keeps_every_package() {
    let out = cmd_rm(FLAT_ARXML.as_bytes(), &strs(&["Nope"])).unwrap();
    let expected = format!("{}{}{}{}{}", HEADER, block("Alpha"), block("Beta"), block("Gamma"), FOOTER);
    assert_eq!(String::from_utf8(out.bytes).unwrap(), expected);
    assert!(!out.any_removed);
    assert!(cmd_rm(MALFORMED.as_bytes(), &strs(&["A"])).is_none());
}

#[test]
fn cmd_rm_element_keeps_package_bytes_around_it() {
    let out = cmd_rm(NESTED_ARXML.as_bytes(), &strs(&["Root/Components/MyComponent"])).unwrap();
    let text = String::from_utf8(out.bytes).unwrap();
    assert!(out.any_removed);
    assert!(!text.contains("MyComponent"));
    assert!(text.contains("<ELEMENTS>\n          </ELEMENTS>"));
    assert!(text.contains("MySRInterface"));
}

// ---------------------------------------------------------------------------
// diff
// ---------------------------------------------------------------------------

#[test]
fn collect_all_paths_is_sorted_and_filtered() {
    let all = collect_all_paths(NESTED_ARXML.as_bytes(), None).unwrap();
    assert_eq!(all, vec![
        "/Root",
        "/Root/Components",
        "/Root/Components/MyComponent",
        "/Root/Interfaces",
        "/Root/Interfaces/MySRInterface",
        "/Types",
    ]);
    let some = collect_all_paths(NESTED_ARXML.as_bytes(), Some("/Root/Interfaces")).unwrap();
    assert_eq!(some, vec!["/Root/Interfaces", "/Root/Interfaces/MySRInterface"]);
    assert!(collect_all_paths(MALFORMED.as_bytes(), None).is_none());
}

#[test]
fn cmd_diff_report_without_colours() {
    let o = cmd_diff(FLAT_ARXML.as_bytes(), FLAT_ARXML_AB.as_bytes(), "a.arxml", "b.arxml", None, &colors_off()).unwrap();
    assert!(!o.identical);
    assert_eq!(o.removed, vec!["/Gamma"]);
    assert!(o.added.is_empty());
    assert_eq!(o.report, "--- a.arxml\n+++ b.arxml\n\n- /Gamma\n");
}

#[test]
fn cmd_diff_report_with_colours() {
    let o = cmd_diff(FLAT_ARXML_AB.as_bytes(), FLAT_ARXML.as_bytes(), "x", "y", None, &colors_on()).unwrap();
    assert_eq!(o.added, vec!["/Gamma"]);
    assert_eq!(
        o.report,
        "\x1b[31m--- x\x1b[0m\n\x1b[32m+++ y\x1b[0m\n\n\x1b[32m+\x1b[0m \x1b[32m/Gamma\n\x1b[0m"
    );
}

#[test]
fn cmd_diff_swapping_documents_swaps_sides() {
    let c = colors_off();
    let ab = cmd_diff(FLAT_ARXML.as_bytes(), NESTED_ARXML.as_bytes(), "a", "b", None, &c).unwrap();
    let ba = cmd_diff(NESTED_ARXML.as_bytes(), FLAT_ARXML.as_bytes(), "b", "a", None, &c).unwrap();
    assert_eq!(ab.removed, ba.added);
    assert_eq!(ab.added, ba.removed);
    assert_eq!(ab.removed, vec!["/Alpha", "/Beta", "/Gamma"]);
}

#[test]
fn cmd_diff_identical_report_is_empty() {
    let o = cmd_diff(NESTED_ARXML.as_bytes(), NESTED_ARXML.as_bytes(), "a", "b", None, &colors_on()).unwrap();
    assert!(o.identical);
    assert_eq!(o.report, "");
}

#[test]
fn cmd_diff_filter_restricts_comparison() {
    let c = colors_off();
    let o = cmd_diff(FLAT_ARXML.as_bytes(), FLAT_ARXML_AB.as_bytes(), "a", "b", Some("/Alpha"), &c).unwrap();
    assert!(o.identical);
    assert!(cmd_diff(MALFORMED.as_bytes(), FLAT_ARXML.as_bytes(), "a", "b", None, &c).is_none());
}

#[test]
fn element_fields_of_one_element() {
    let fields = collect_element_fields(FIELDS_A.as_bytes(), "/Root/Comp").unwrap();
    let expected: Vec<(String, String)> = vec![
        ("SHORT-NAME".into(), "Comp".into()),
        ("CATEGORY".into(), "APPLICATION".into()),
        ("DESC".into(), "old".into()),
        ("PORTS".into(), "".into()),
    ];
    assert_eq!(fields, expected);
    assert!(collect_element_fields(FIELDS_A.as_bytes(), "/Root/Other").unwrap().is_empty());
    assert!(collect_element_fields(FIELDS_A.as_bytes(), "Comp").unwrap().is_empty());
    // Without a `/` the document is not even read.
    assert!(collect_element_fields(MALFORMED.as_bytes(), "Comp").unwrap().is_empty());
    assert!(collect_element_fields(MALFORMED.as_bytes(), "A/Comp").is_none());
}

#[test]
fn element_fields_of_every_element() {
    let all = collect_all_element_fields(FIELDS_A.as_bytes()).unwrap();
    assert_eq!(all.len(), 1);
    assert_eq!(all[0].0, "Root/Comp");
    let mut fields = all[0].1.clone();
    fields.sort();
    let expected: Vec<(String, String)> = vec![
        ("CATEGORY".into(), "APPLICATION".into()),
        ("DESC".into(), "old".into()),
        ("PORTS".into(), "".into()),
        ("SHORT-NAME".into(), "Comp".into()),
    ];
    assert_eq!(fields, expected);
    assert!(collect_all_element_fields(MALFORMED.as_bytes()).is_none());
    let nested = collect_all_element_fields(NESTED_ARXML.as_bytes()).unwrap();
    let mut paths: Vec<&str> = nested.iter().map(|e| e.0.as_str()).collect();
    paths.sort();
    assert_eq!(paths, vec!["Root/Components/MyComponent", "Root/Interfaces/MySRInterface"]);
}

#[test]
fn cmd_diff_extended_reports_field_changes() {
    let o = cmd_diff_extended(FIELDS_A.as_bytes(), FIELDS_B.as_bytes(), "a.arxml", "b.arxml", None, &colors_off()).unwrap();
    assert!(!o.identical);
    assert!(o.removed.is_empty() && o.added.is_empty());
    assert_eq!(o.changed.len(), 1);
    assert_eq!(o.changed[0].path, "/Root/Comp");
    let tags: Vec<(&str, &str, &str)> = o.changed[0]
        .changes
        .iter()
        .map(|f| (f.tag.as_str(), f.old.as_str(), f.new.as_str()))
        .collect();
    assert_eq!(tags, vec![
        ("ADMIN-DATA", "", "x"),
        ("CATEGORY", "APPLICATION", "COMPOSITION"),
        ("DESC", "old", ""),
    ]);
    assert_eq!(
        o.report,
        "--- a.arxml\n+++ b.arxml\n\n~ /Root/Comp\n  + ADMIN-DATA: x\n  - CATEGORY: APPLICATION\n  + CATEGORY: COMPOSITION\n  - DESC: old\n"
    );
}

#[test]
fn cmd_diff_extended_with_colours() {
    let o = cmd_diff_extended(FIELDS_B.as_bytes(), FIELDS_A.as_bytes(), "b", "a", None, &colors_on()).unwrap();
    assert_eq!(
        o.report,
        "\x1b[31m--- b\x1b[0m\n\x1b[32m+++ a\x1b[0m\n\n\x1b[33m~\x1b[0m \x1b[33m/Root/Comp\n\x1b[0m\x1b[31m  - ADMIN-DATA: x\x1b[0m\n\x1b[31m  - CATEGORY: COMPOSITION\x1b[0m\n\x1b[32m  + CATEGORY: APPLICATION\x1b[0m\n\x1b[32m  + DESC: old\x1b[0m\n"
    );
}

#[test]
fn cmd_diff_extended_of_a_document_with_itself_is_identical() {
    let o = cmd_diff_extended(FIELDS_A.as_bytes(), FIELDS_A.as_bytes(), "a", "a", None, &colors_on()).unwrap();
    assert!(o.identical);
    assert!(o.changed.is_empty());
    assert_eq!(o.report, "");
}

#[test]
fn cmd_diff_extended_agrees_with_structural_diff() {
    let c = colors_off();
    let s = cmd_diff(NESTED_ARXML.as_bytes(), FIELDS_A.as_bytes(), "a", "b", None, &c).unwrap();
    let e = cmd_diff_extended(NESTED_ARXML.as_bytes(), FIELDS_A.as_bytes(), "a", "b", None, &c).unwrap();
    assert_eq!(s.removed, e.removed);
    assert_eq!(s.added, e.added);
    assert!(e.changed.is_empty());
    assert_eq!(s.report, e.report);
    assert!(cmd_diff_extended(FIELDS_A.as_bytes(), MALFORMED.as_bytes(), "a", "b", None, &c).is_none());
}

/// Two packages with an element of the same name each.
const TWO_PACKAGES: &str = "<AUTOSAR><AR-PACKAGES><AR-PACKAGE><SHORT-NAME>A</SHORT-NAME><ELEMENTS><T><SHORT-NAME>X</SHORT-NAME><CATEGORY>a</CATEGORY></T></ELEMENTS></AR-PACKAGE><AR-PACKAGE><SHORT-NAME>B</SHORT-NAME><ELEMENTS><T><SHORT-NAME>X</SHORT-NAME><CATEGORY>b</CATEGORY></T></ELEMENTS></AR-PACKAGE></AR-PACKAGES></AUTOSAR>";

#[test]
fn element_fields_of_a_later_package() {
    let fields = collect_element_fields(TWO_PACKAGES.as_bytes(), "/B/X").unwrap();
    let expected: Vec<(String, String)> = vec![
        ("SHORT-NAME".into(), "X".into()),
        ("CATEGORY".into(), "b".into()),
    ];
    assert_eq!(fields, expected);
    let first = collect_element_fields(TWO_PACKAGES.as_bytes(), "/A/X").unwrap();
    assert_eq!(first[1], ("CATEGORY".to_string(), "a".to_string()));
}

#[test]
fn element_fields_agree_with_all_element_fields() {
    for doc in [TWO_PACKAGES, FIELDS_A, NESTED_ARXML] {
        let all = collect_all_element_fields(doc.as_bytes()).unwrap();
        for (path, fields) in &all {
            let mut one = collect_element_fields(doc.as_bytes(), path).unwrap();
            let mut fields = fields.clone();
            one.sort();
            fields.sort();
            assert_eq!(one, fields, "element {}", path);
        }
    }
}

#[test]
fn cmd_rm_removes_nested_package() {
    let out = cmd_rm(NESTED_ARXML.as_bytes(), &strs(&["Root/Components"])).unwrap();
    assert!(out.any_removed);
    let listed = ls_collect(&out.bytes, None, None, &[], &[]).unwrap();
    assert_eq!(listed, vec!["/Root", "/Root/Interfaces", "/Root/Interfaces/MySRInterface", "/Types"]);
}

#[test]
fn cmd_rm_removes_overlapping_blocks_once() {
    let out = cmd_rm(NESTED_ARXML.as_bytes(), &strs(&["Root/Components/MyComponent", "Root/Components"])).unwrap();
    let listed = ls_collect(&out.bytes, None, None, &[], &[]).unwrap();
    assert_eq!(listed, vec!["/Root", "/Root/Interfaces", "/Root/Interfaces/MySRInterface", "/Types"]);
    let text = String::from_utf8(out.bytes).unwrap();
    assert_eq!(text.matches("</AR-PACKAGE>").count(), 3);
}

#[test]
fn root_attributes_are_escaped_when_written() {
    let doc = "<AUTOSAR a=\"x &amp; &quot;y&quot; &lt;z&gt;\"><AR-PACKAGES><AR-PACKAGE><SHORT-NAME>P</SHORT-NAME></AR-PACKAGE></AR-PACKAGES></AUTOSAR>";
    let groups = vec![CpGroup { packages: strs(&["P"]), output: "o".to_string() }];
    let plan = cmd_cp(doc.as_bytes(), &groups, false).ok().unwrap();
    let out = plan.outputs[0].bytes.clone();
    let text = String::from_utf8(out.clone()).unwrap();
    assert!(text.contains("<AUTOSAR a=\"x &amp; &quot;y&quot; &lt;z>\">"), "{}", text);
    assert_eq!(collect_root_attrs(&out), collect_root_attrs(doc.as_bytes()));
    assert_eq!(ls_collect(&out, None, None, &[], &[]).unwrap(), vec!["/P"]);
}

/// `FLAT_ARXML` behind a UTF-8 byte-order mark.
fn with_bom(doc: &str) -> Vec<u8> {
    let mut v = vec![0xEFu8, 0xBB, 0xBF];
    v.extend_from_slice(doc.as_bytes());
    v
}

#[test]
fn byte_order_mark_keeps_ranges_exact() {
    let raw = with_bom(FLAT_ARXML);
    let ranges = find_all_toplevel_package_ranges(&raw).unwrap();
    for (r, name) in ranges.iter().zip(["Alpha", "Beta", "Gamma"]) {
        let text = std::str::from_utf8(&raw[r.start as usize..r.end as usize]).unwrap();
        assert_eq!(text, block(name).trim_end_matches('\n'));
    }
}

#[test]
fn cmd_cp_after_byte_order_mark() {
    let raw = with_bom(FLAT_ARXML);
    let groups = vec![CpGroup { packages: strs(&["Alpha"]), output: "o".to_string() }];
    let plan = cmd_cp(&raw, &groups, true).ok().unwrap();
    let expected = format!("{}{}{}", HEADER, block("Alpha"), FOOTER);
    assert_eq!(String::from_utf8(plan.outputs[0].bytes.clone()).unwrap(), expected);
    let rest = format!("{}{}{}{}", HEADER, block("Beta"), block("Gamma"), FOOTER);
    assert_eq!(String::from_utf8(plan.rest.unwrap()).unwrap(), rest);
}

#[test]
fn cmd_rm_after_byte_order_mark() {
    let raw = with_bom(NESTED_ARXML);
    let out = cmd_rm(&raw, &strs(&["Types", "Root/Components/MyComponent"])).unwrap();
    let listed = ls_collect(&out.bytes, None, None, &[], &[]).unwrap();
    assert_eq!(listed, vec!["/Root", "/Root/Components", "/Root/Interfaces", "/Root/Interfaces/MySRInterface"]);
    let text = String::from_utf8(out.bytes).unwrap();
    assert!(text.contains("<ELEMENTS>\n          </ELEMENTS>"));
}
