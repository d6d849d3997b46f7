//! Searching.

use optionsearch::bytestr::find_ci;
use optionsearch::index::Index;
use optionsearch::model::flags;
use optionsearch::query::{Query, Term};
use optionsearch::search::{ext_matches, score_term, search, search_collect, search_within};

fn split(p: &str) -> (&str, &str) {
    let at = p.rfind('/').unwrap();
    let dir = if at == 0 { "/" } else { &p[..at] };
    (dir, &p[at + 1..])
}

fn build(files: &[(&str, u64, i64, bool)]) -> Index {
    let mut idx = Index::new();
    for &(p, size, mtime, is_dir) in files {
        let (parent, name) = split(p);
        let dir = idx.ensure_dir_path(parent.as_bytes());
        let f = if is_dir { flags::DIR } else { 0 };
        idx.push_entry(dir, name.as_bytes(), f, size, mtime);
    }
    idx
}

fn names(index: &Index, q: &str, limit: usize) -> Vec<String> {
    search(index, &Query::parse(q), limit)
        .hits
        .into_iter()
        .map(|h| String::from_utf8_lossy(&h.path).into_owned())
        .collect()
}

fn sample() -> Index {
    build(&[
        ("/home/u/report.pdf", 2_000_000, 100, false),
        ("/home/u/deep/nested/report_final.pdf", 10, 200, false),
        ("/home/u/my_report.txt", 10, 300, false),
        ("/home/u/preport.txt", 10, 400, false),
        ("/home/u/pics/IMG_0042.JPG", 5_000_000, 500, false),
        ("/home/u/reports", 4096, 600, true),
    ])
}

#[test]
fn ranks_exact_then_prefix_then_word_then_substring() {
    let idx = sample();
    let got = names(&idx, "report", 10);
    assert_eq!(
        got,
        vec![
            "/home/u/report.pdf",
            "/home/u/reports",
            "/home/u/deep/nested/report_final.pdf",
            "/home/u/my_report.txt",
            "/home/u/preport.txt",
        ]
    );
}

#[test]
fn single_letter_queries_rank_exact_then_prefix() {
    let idx = build(&[
        ("/a/x", 1, 1, false),
        ("/a/xylophone", 1, 1, false),
        ("/a/box", 1, 1, false),
        ("/a/none", 1, 1, false),
    ]);
    assert_eq!(names(&idx, "x", 10), vec!["/a/x", "/a/xylophone", "/a/box"]);
    assert_eq!(search(&idx, &Query::parse("x"), 10).total, 3);
}

#[test]
fn case_insensitive_matching() {
    let idx = sample();
    assert_eq!(
        names(&idx, "img_0042", 10),
        vec!["/home/u/pics/IMG_0042.JPG"]
    );
    assert_eq!(names(&idx, "REPORTS", 10), vec!["/home/u/reports"]);
}

#[test]
fn terms_are_anded() {
    let idx = sample();
    assert_eq!(names(&idx, "report final", 10).len(), 1);
    assert!(names(&idx, "report nothing", 10).is_empty());
}

#[test]
fn ext_size_and_kind_filters() {
    let idx = sample();
    assert_eq!(names(&idx, "ext:pdf report", 10).len(), 2);
    assert_eq!(
        names(&idx, "report size:>1mb", 10),
        vec!["/home/u/report.pdf"]
    );
    assert_eq!(names(&idx, "dir: report", 10), vec!["/home/u/reports"]);
    assert_eq!(
        names(&idx, "file: ext:jpg", 10),
        vec!["/home/u/pics/IMG_0042.JPG"]
    );
}

#[test]
fn path_terms_match_full_path() {
    let idx = sample();
    assert_eq!(
        names(&idx, "nested/report", 10),
        vec!["/home/u/deep/nested/report_final.pdf"]
    );
    assert!(names(&idx, "u/pics/", 10).contains(&"/home/u/pics/IMG_0042.JPG".to_string()));
}

#[test]
fn regex_terms() {
    let idx = sample();
    assert_eq!(
        names(&idx, r"re:^img_\d+", 10),
        vec!["/home/u/pics/IMG_0042.JPG"]
    );
}

#[test]
fn quoted_phrase_with_space() {
    let idx = build(&[
        ("/a/my file.txt", 1, 1, false),
        ("/a/myfile.txt", 1, 1, false),
    ]);
    assert_eq!(names(&idx, "\"my file\"", 10), vec!["/a/my file.txt"]);
}

#[test]
fn shorter_path_wins_then_newer_mtime() {
    let idx = build(&[
        ("/a/x/data.bin", 1, 10, false),
        ("/a/data.bin", 1, 5, false),
        ("/b/data.bin", 1, 50, false),
    ]);
    let got = names(&idx, "data.bin", 10);
    assert_eq!(got[0], "/b/data.bin");
    assert_eq!(got[1], "/a/data.bin");
    assert_eq!(got[2], "/a/x/data.bin");
}

#[test]
fn truncation_reports_total() {
    let idx = sample();
    let r = search(&idx, &Query::parse("report"), 2);
    assert_eq!(r.hits.len(), 2);
    assert_eq!(r.total, 5);
    assert!(r.truncated);
}

#[test]
fn empty_query_returns_nothing() {
    let idx = sample();
    let r = search(&idx, &Query::parse(""), 10);
    assert!(r.hits.is_empty() && r.total == 0);
}

#[test]
fn tombstoned_entries_are_skipped() {
    let mut idx = sample();
    idx.remove_entry(0);
    assert!(!names(&idx, "report", 10).contains(&"/home/u/report.pdf".to_string()));
}

#[test]
fn refinement_over_subset_matches_full_scan() {
    let idx = sample();
    let (_, ids) = search_collect(&idx, &Query::parse("report"), 100);
    let ids = ids.unwrap();
    let (a, _) = search_within(&idx, &Query::parse("report_f"), &ids, 100);
    let b = search(&idx, &Query::parse("report_f"), 100);
    assert_eq!(a.hits.len(), b.hits.len());
    assert_eq!(a.hits[0].path, b.hits[0].path);
}

#[test]
fn unicode_terms_match_case_insensitively() {
    let idx = build(&[("/a/Ação.txt", 1, 1, false), ("/a/acao.txt", 1, 1, false)]);
    assert_eq!(names(&idx, "ação", 10), vec!["/a/Ação.txt"]);
}

#[test]
fn find_ci_edge_cases() {
    assert_eq!(find_ci(b"HelloWorld", b"world"), Some(5));
    assert_eq!(find_ci(b"aaab", b"aab"), Some(1));
    assert_eq!(find_ci(b"abc", b"abcd"), None);
    assert_eq!(find_ci(b"abc", b""), Some(0));
}

#[test]
fn a_limit_of_nothing_gives_no_hits() {
    let r = search(&sample(), &Query::parse("report"), 0);
    assert!(r.hits.is_empty());
    assert_eq!(r.total, 5);
    assert!(r.truncated);
}

#[test]
fn hits_tell_what_the_index_holds() {
    let r = search(&sample(), &Query::parse("reports"), 10);
    let h = &r.hits[0];
    assert_eq!(h.path, b"/home/u/reports");
    assert_eq!(h.name, "reports");
    assert_eq!((h.size, h.mtime, h.is_dir, h.id), (4096, 600, true, 5));
    assert_eq!(r.scanned, 6);
}

#[test]
fn names_that_are_not_text_are_shown_lossily() {
    let mut idx = Index::new();
    let d = idx.ensure_dir_path(b"/a");
    idx.push_entry(d, &[b'w', 0xff, b'x'], 0, 1, 1);
    let r = search(&idx, &Query::parse("w"), 10);
    assert_eq!(r.hits[0].name, "w\u{fffd}x");
    assert_eq!(r.hits[0].path, [b'/', b'a', b'/', b'w', 0xff, b'x']);
}

#[test]
fn collected_ids_are_ascending() {
    let (_, ids) = search_collect(&sample(), &Query::parse("report"), 1);
    assert_eq!(ids.unwrap(), vec![0, 1, 2, 3, 5]);
    assert!(search_collect(&sample(), &Query::parse(""), 1).1.is_none());
}

#[test]
fn extensions_are_what_follows_the_last_dot() {
    let exts = vec!["gz".to_string()];
    assert!(ext_matches(b"a.tar.GZ", &exts));
    assert!(!ext_matches(b"gz", &exts));
    assert!(!ext_matches(b"a.gz.txt", &exts));
}

#[test]
fn scores_fall_from_exact_to_substring() {
    let t = Term::with_needle(b"foo".to_vec(), false, true);
    let exact = score_term(b"Foo", &t).unwrap();
    let prefix = score_term(b"football", &t).unwrap();
    let word = score_term(b"my_foo", &t).unwrap();
    let inside = score_term(b"xfoox", &t).unwrap();
    assert!(exact > prefix && prefix > word && word > inside);
    assert_eq!(score_term(b"bar", &t), None);
}

#[test]
fn parallel_scan_of_many_entries_finds_each_once() {
    let mut idx = Index::new();
    let d = idx.ensure_dir_path(b"/many");
    for i in 0..70_000u32 {
        idx.push_entry(d, format!("file{i}.txt").as_bytes(), 0, i as u64, i as i64);
    }
    let r = search(&idx, &Query::parse("file ext:txt"), 3);
    assert_eq!(r.total, 70_000);
    assert_eq!(r.hits.len(), 3);
    assert_eq!(search(&idx, &Query::parse("file69999"), 3).total, 1);
}
