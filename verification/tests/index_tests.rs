use hydropkg::search_listing;

fn listing(links: &[&str]) -> String {
    let mut body = String::from("<html><body><table>");
    for link in links {
        body.push_str("<tr><td><a href=\"");
        body.push_str(link);
        body.push_str("\">");
        body.push_str(link);
        body.push_str("</a></td></tr>");
    }
    body.push_str("</table></body></html>");
    body
}

fn search(links: &[&str], query: &str) -> Vec<String> {
    let mut found = search_listing(&listing(links), query);
    found.sort();
    found
}

#[test]
fn search_matches_by_substring() {
    let links = ["foo-1.0.pkg.tar.zst", "foobar-2.0.pkg.tar.zst", "baz-1.0.pkg.tar.zst"];
    assert_eq!(
        search(&links, "foo"),
        vec!["foo-1.0".to_string(), "foobar-2.0".to_string()]
    );
}

#[test]
fn search_without_match_is_empty() {
    let links = ["foo-1.0.pkg.tar.zst", "baz-1.0.pkg.tar.zst"];
    assert!(search(&links, "nginx").is_empty());
}

#[test]
fn search_ignores_links_without_the_archive_suffix() {
    let links = ["foo-1.0.pkg.tar.zst", "foo-2.0.tar.gz", "foo-3.0.pkg.tar.zst.sig", "../"];
    assert_eq!(search(&links, "foo"), vec!["foo-1.0".to_string()]);
}

#[test]
fn search_collapses_duplicate_links() {
    let links = ["foo-1.0.pkg.tar.zst", "foo-1.0.pkg.tar.zst"];
    assert_eq!(search(&links, "foo"), vec!["foo-1.0".to_string()]);
}

#[test]
fn search_with_empty_query_lists_every_package() {
    let links = ["foo-1.0.pkg.tar.zst", "baz-1.0.pkg.tar.zst"];
    assert_eq!(
        search(&links, ""),
        vec!["baz-1.0".to_string(), "foo-1.0".to_string()]
    );
}

#[test]
fn search_is_case_sensitive() {
    let links = ["Foo-1.0.pkg.tar.zst"];
    assert!(search(&links, "foo").is_empty());
    assert_eq!(search(&links, "Foo"), vec!["Foo-1.0".to_string()]);
}

#[test]
fn search_reads_anchors_not_plain_text() {
    let body = "<html><body>quux-1.0.pkg.tar.zst <a href=\"foo-1.0.pkg.tar.zst\">x</a></body></html>";
    let mut found = search_listing(body, "");
    found.sort();
    assert_eq!(found, vec!["foo-1.0".to_string()]);
}
