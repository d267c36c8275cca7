use mirror_clone::error::Error;
use mirror_clone::pypi::{package_base_dir, strip_base, Pypi};
use mirror_clone::SnapshotPath;

fn pypi(debug: bool) -> Pypi {
    Pypi {
        simple_base: "https://example.org/simple".to_string(),
        package_base: "https://example.org/packages".to_string(),
        debug,
    }
}

#[test]
fn anchor_fragment_yields_its_pair() {
    let r = pypi(false).index_entries("<a href=\"X\">Y</a>").unwrap();
    assert_eq!(r, vec![("X".to_string(), "Y".to_string())]);
}

#[test]
fn repeated_anchor_fragments_yield_pairs_in_order() {
    let page = "<html><body>\n<a href=\"foo/\">foo</a>\n<a href=\"bar/\">bar</a>\n<a href=\"foo/\">foo</a>\n</body></html>";
    let r = pypi(false).index_entries(page).unwrap();
    assert_eq!(
        r,
        vec![
            ("foo/".to_string(), "foo".to_string()),
            ("bar/".to_string(), "bar".to_string()),
            ("foo/".to_string(), "foo".to_string()),
        ]
    );
}

#[test]
fn anchors_on_one_line_yield_one_pair_each() {
    let page = "<a href=\"a.whl\">a</a><a class=\"x\" href=\"b.whl\" data-y=\"1\">b</a> <a href=\"c\">c</a>";
    let r = pypi(false).index_entries(page).unwrap();
    assert_eq!(
        r,
        vec![
            ("a.whl".to_string(), "a".to_string()),
            ("b.whl".to_string(), "b".to_string()),
            ("c".to_string(), "c".to_string()),
        ]
    );
}

#[test]
fn page_without_anchors_yields_nothing() {
    assert_eq!(pypi(false).index_entries("no links here").unwrap(), vec![]);
}

#[test]
fn debug_reads_only_the_start_of_the_index() {
    let mut page = String::new();
    for i in 0..100 {
        page.push_str(&format!("<a href=\"p{:03}/\">p{:03}</a>\n", i, i));
    }
    let all = pypi(false).index_entries(&page).unwrap();
    let some = pypi(true).index_entries(&page).unwrap();
    assert_eq!(all.len(), 100);
    // each line is 25 characters: the first 1000 hold 40 whole lines
    assert_eq!(some.len(), 40);
    assert_eq!(some[..], all[..40]);
}

#[test]
fn child_keys_are_canonical_addresses() {
    let page = "<a href=\"../../packages/ab/cd/pkg-1.0.tar.gz#sha256=0123\">pkg-1.0.tar.gz</a>\n\
                <a href=\"../../packages/ef/pkg-1.1.whl?x=1\">pkg-1.1.whl</a>";
    let r = pypi(false).child_keys("pkg/", page).unwrap();
    assert_eq!(
        r,
        vec![
            "https://example.org/packages/ab/cd/pkg-1.0.tar.gz".to_string(),
            "https://example.org/packages/ef/pkg-1.1.whl".to_string(),
        ]
    );
}

#[test]
fn canonicalizing_a_canonical_key_keeps_it() {
    let first = pypi(false)
        .child_keys("pkg/", "<a href=\"../../packages/ab/x.tar.gz?q=1#frag\">x</a>")
        .unwrap();
    assert_eq!(first, vec!["https://example.org/packages/ab/x.tar.gz".to_string()]);
    // the same address again, now written as base "/" child "" : nothing changes
    let p = Pypi {
        simple_base: "https://example.org/packages".to_string(),
        package_base: "https://example.org/packages".to_string(),
        debug: false,
    };
    let second = p.child_keys("ab/x.tar.gz", "<a href=\"\">x</a>").unwrap();
    assert_eq!(second, first);
}

#[test]
fn child_page_with_bad_address_fails() {
    let p = Pypi {
        simple_base: "not an address".to_string(),
        package_base: "x".to_string(),
        debug: false,
    };
    assert_eq!(p.child_keys("pkg/", "<a href=\"a\">a</a>"), Err(Error::ParseError));
}

#[test]
fn failed_child_page_does_not_stop_the_snapshot() {
    let children = vec![
        Ok(vec![
            "https://example.org/packages/a/1.tar.gz".to_string(),
            "https://example.org/packages/b/2.whl".to_string(),
        ]),
        Err(Error::HttpError("connection reset".to_string())),
        Ok(vec![
            "https://elsewhere.org/packages/x.tar.gz".to_string(),
            "https://example.org/packages/c/3.zip".to_string(),
        ]),
        Err(Error::TimeoutError),
    ];
    let keys = pypi(false).snapshot_keys(&children);
    assert_eq!(
        keys,
        vec![
            SnapshotPath("a/1.tar.gz".to_string()),
            SnapshotPath("b/2.whl".to_string()),
            SnapshotPath("c/3.zip".to_string()),
        ]
    );
}

#[test]
fn all_child_pages_failing_gives_empty_snapshot() {
    let children = vec![Err(Error::ParseError), Err(Error::TimeoutError)];
    assert_eq!(pypi(false).snapshot_keys(&children), vec![]);
}

#[test]
fn package_base_gets_one_trailing_slash() {
    assert_eq!(package_base_dir("https://e.org/packages"), "https://e.org/packages/");
    assert_eq!(package_base_dir("https://e.org/packages/"), "https://e.org/packages/");
    assert_eq!(package_base_dir(""), "/");
}

#[test]
fn strip_base_only_under_base() {
    assert_eq!(strip_base("https://e.org/p/a/b", "https://e.org/p/"), Some("a/b".to_string()));
    assert_eq!(strip_base("https://e.org/q/a", "https://e.org/p/"), None);
    assert_eq!(strip_base("https://e.org/p", "https://e.org/p/"), None);
    assert_eq!(strip_base("https://e.org/p/", "https://e.org/p/"), Some(String::new()));
}

#[test]
fn snapshot_key_leads_back_to_its_link() {
    for base in ["https://example.org/packages", "https://example.org/packages/"] {
        let p = Pypi {
            simple_base: "https://example.org/simple".to_string(),
            package_base: base.to_string(),
            debug: false,
        };
        let link = "https://example.org/packages/ab/x.tar.gz".to_string();
        let keys = p.snapshot_keys(&vec![Ok(vec![link.clone()])]);
        assert_eq!(keys, vec![SnapshotPath("ab/x.tar.gz".to_string())]);
        assert_eq!(p.get_object(&keys[0]).0, link);
    }
}

#[test]
fn index_addresses() {
    let p = pypi(false);
    assert_eq!(p.root_index_url(), "https://example.org/simple/");
    assert_eq!(p.child_index_url("numpy/"), "https://example.org/simple/numpy/");
    assert_eq!(
        p.get_object(&SnapshotPath("ab/x.tar.gz".to_string())).0,
        "https://example.org/packages/ab/x.tar.gz"
    );
}
