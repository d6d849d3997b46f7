//! Reading queries.

use optionsearch::model::{signature, signature2};
use optionsearch::query::{shared_signature, Cmp, Kind, Query, SizeFilter, Term};

#[test]
fn plain_terms_are_lowercased_and_anded() {
    let q = Query::parse("Foo BAR");
    assert_eq!(q.terms.len(), 2);
    assert_eq!(q.terms[0].lower, b"foo");
    assert_eq!(q.terms[1].lower, b"bar");
    assert!(!q.terms[0].on_path);
}

#[test]
fn slash_makes_a_path_term() {
    let q = Query::parse("src/main");
    assert!(q.terms[0].on_path);
    assert!(q.has_path_terms());
}

#[test]
fn ext_filter_accepts_lists_and_dots() {
    let q = Query::parse("ext:.PDF,jpg");
    assert_eq!(q.exts, vec!["pdf", "jpg"]);
    assert!(q.terms.is_empty());
}

#[test]
fn size_filters_parse_units_and_operators() {
    assert_eq!(
        Query::parse("size:>10mb").size,
        Some(SizeFilter {
            op: Cmp::Gt,
            bytes: 10 * 1024 * 1024
        })
    );
    assert_eq!(
        Query::parse("size:<1k").size,
        Some(SizeFilter {
            op: Cmp::Lt,
            bytes: 1024
        })
    );
    assert_eq!(
        Query::parse("size:4096").size,
        Some(SizeFilter {
            op: Cmp::Ge,
            bytes: 4096
        })
    );
    assert!(Query::parse("size:abc").error.is_some());
}

#[test]
fn size_filter_comparison() {
    let f = SizeFilter {
        op: Cmp::Gt,
        bytes: 100,
    };
    assert!(f.matches(101));
    assert!(!f.matches(100));
}

#[test]
fn kind_filters() {
    assert_eq!(Query::parse("dir:").kind, Some(Kind::Dir));
    let q = Query::parse("file:notes");
    assert_eq!(q.kind, Some(Kind::File));
    assert_eq!(q.terms[0].lower, b"notes");
}

#[test]
fn quoted_phrases_keep_spaces_and_ignore_prefixes() {
    let q = Query::parse("\"my report\" ext:pdf");
    assert_eq!(q.terms.len(), 1);
    assert_eq!(q.terms[0].lower, b"my report");
    assert_eq!(q.exts, vec!["pdf"]);
    let q = Query::parse("\"ext:pdf\"");
    assert_eq!(q.terms[0].lower, b"ext:pdf");
    assert!(q.exts.is_empty());
}

#[test]
fn regex_terms_compile_and_report_errors() {
    let q = Query::parse(r"re:^IMG_\d+");
    assert!(q.regex.is_some());
    assert!(q.regex.unwrap().is_match(b"img_0042.jpg"));
    assert!(Query::parse("re:[unclosed").error.is_some());
}

#[test]
fn non_ascii_terms_are_marked() {
    let q = Query::parse("Ação");
    assert!(!q.terms[0].ascii);
    assert_eq!(q.terms[0].lower, "ação".as_bytes());
}

#[test]
fn empty_query_detection() {
    assert!(Query::parse("   ").is_empty());
    assert!(!Query::parse("a").is_empty());
}

#[test]
fn refinement_only_for_plain_prefix_queries() {
    assert!(Query::parse("foob").refines(&Query::parse("foo")));
    assert!(Query::parse("foo bar").refines(&Query::parse("foo")));
    assert!(!Query::parse("food").refines(&Query::parse("foo ba")));
    assert!(!Query::parse("ext:pdf").refines(&Query::parse("ext:pd")));
    assert!(!Query::parse("src/m").refines(&Query::parse("src/")));
    assert!(!Query::parse("a").refines(&Query::parse("")));
}

#[test]
fn name_sig_covers_name_terms_only() {
    let q = Query::parse("alpha beta/gamma");
    assert_eq!(q.name_sig().0, signature(b"alpha"));
}

#[test]
fn name_sig_includes_extension_and_regex_literals() {
    let q = Query::parse("ext:pdf");
    let want = signature(b"pdf") | signature(b".");
    assert_eq!(q.name_sig().0 & want, want);

    // Only the bits shared by every accepted extension may be required.
    let q = Query::parse("ext:pdf,jpg");
    assert_eq!(q.name_sig().0 & signature(b"p"), signature(b"p"));
    assert_eq!(q.name_sig().0 & signature(b"d"), 0);

    let q = Query::parse(r"re:^IMG_\d+");
    let want = signature(b"img_");
    assert_eq!(q.name_sig().0 & want, want);
    assert_eq!(Query::parse("re:.*").name_sig(), (0, 0));
}

#[test]
fn fractional_sizes_are_cut_to_whole_bytes() {
    assert_eq!(Query::parse("size:<=1.5k").size, Some(SizeFilter { op: Cmp::Le, bytes: 1536 }));
    assert_eq!(Query::parse("size:=0.1kb").size, Some(SizeFilter { op: Cmp::Eq, bytes: 102 }));
    assert_eq!(Query::parse("size:>=2G").size, Some(SizeFilter { op: Cmp::Ge, bytes: 2 << 30 }));
    assert_eq!(Query::parse("size:.5t").size, Some(SizeFilter { op: Cmp::Ge, bytes: 1 << 39 }));
}

#[test]
fn bad_sizes_say_what_is_wrong() {
    assert_eq!(Query::parse("size:abc").error.as_deref(), Some("invalid size: \"abc\""));
    assert_eq!(Query::parse("size:3xb").error.as_deref(), Some("unknown size unit: \"xb\""));
}

#[test]
fn a_bad_pattern_is_reported_with_its_reason() {
    let e = Query::parse("re:[unclosed").error.unwrap();
    assert!(e.starts_with("invalid regex: "), "{e}");
    assert!(e.len() > "invalid regex: ".len());
}

#[test]
fn terms_carry_the_bits_of_their_needles() {
    let t = Term::with_needle(b"song".to_vec(), false, true);
    assert_eq!((t.sig, t.sig2), (signature(b"song"), signature2(b"song")));
    assert!(!t.on_path && t.ascii);
}

#[test]
fn shared_bits_of_literals() {
    assert_eq!(shared_signature(&None), (0, 0));
    assert_eq!(shared_signature(&Some(vec![])), (0, 0));
    let both = shared_signature(&Some(vec![b"ab".to_vec(), b"ac".to_vec()]));
    assert_eq!(both.0, signature(b"ab") & signature(b"ac"));
    assert_eq!(both.1, signature2(b"ab") & signature2(b"ac"));
}

#[test]
fn a_query_that_turns_into_a_filter_refines_nothing() {
    assert!(!Query::parse("foo ext:").refines(&Query::parse("foo ext")));
    assert!(!Query::parse("foo").refines(&Query::parse("foo size:x")));
}
