use pibipu::threads::{extract, merge_pages, post_url, script_blocks, ExtractError, Post};

#[test]
fn reposts_are_dropped_and_url_uses_fixthreads() {
    let html = r#"<script data-sjs>{"x":{"thread_items":[
        {"post":{"code":"own","taken_at":1,"user":{"username":"u"},"text_post_app_info":{"share_info":{"reposted_post":null}}}},
        {"post":{"code":"rt","taken_at":2,"user":{"username":"u"},"text_post_app_info":{"share_info":{"reposted_post":{"code":"theirs"}}}}}
    ]}}</script>"#;
    let posts = extract(html, "u").unwrap();
    assert_eq!(
        posts,
        [Post {
            code: "own".into(),
            taken_at: 1,
            url: post_url("u", "own")
        }]
    );
    assert_eq!(
        post_url("u", "own"),
        "https://fixthreads.seria.moe/@u/post/own"
    );
}

#[test]
fn canonical_url_is_preserved_and_duplicates_are_dropped() {
    let html = r#"<script data-sjs>{"thread_items":[
        {"post":{"code":"own","taken_at":1,"user":{"username":"u"},"canonical_url":"https://www.threads.com/@u/post/canonical?x=1"}},
        {"post":{"code":"own","taken_at":1,"user":{"username":"u"}}}
    ]}</script>"#;
    let posts = extract(html, "u").unwrap();
    assert_eq!(posts.len(), 1);
    assert_eq!(
        posts[0].url,
        "https://fixthreads.seria.moe/@u/post/canonical?x=1"
    );
}

#[test]
fn invalid_timeline_is_an_error_but_empty_timeline_is_valid() {
    for html in [
        "<html>Log in to see thread_items</html>",
        r#"<script data-sjs>{"thread_items":</script>"#,
        r#"<script data-sjs>{"thread_items":null}</script>"#,
        r#"<script data-sjs>{"text":"thread_items"}</script>"#,
    ] {
        assert!(extract(html, "u").is_err(), "{html}");
    }
    for html in [
        r#"<script data-sjs>{"thread_items":[]}</script>"#,
        r#"<script data-sjs>{"data":{"mediaData":{"edges":[]}}}</script>"#,
    ] {
        assert!(extract(html, "u").unwrap().is_empty());
    }
}

#[test]
fn author_is_compared_ignoring_ascii_case_and_other_authors_are_skipped() {
    let html = r#"<p>x</p><script type="a" data-sjs>{"a":[{"thread_items":[
        {"post":{"code":"c1","taken_at":5,"user":{"username":"MiaoPoya"}}},
        {"post":{"code":"c2","taken_at":6,"user":{"username":"someone"}}},
        {"post":{"code":"c3","user":{"username":"miaopoya"}}}
    ]}]}</script><script>{"thread_items":[]}</script>"#;
    let posts = extract(html, "miaopoya").unwrap();
    assert_eq!(posts.len(), 1);
    assert_eq!(posts[0].code, "c1");
    assert_eq!(posts[0].url, "https://fixthreads.seria.moe/@MiaoPoya/post/c1");
    assert!(extract(html, "someone_else").unwrap().is_empty());
    assert_eq!(extract(html, "MIAOPOYA").unwrap(), posts);
}

#[test]
fn error_kinds_are_told_apart() {
    assert_eq!(extract("<html></html>", "u"), Err(ExtractError::NoTimeline));
    assert_eq!(
        extract(r#"<script data-sjs>{"thread_items":</script>"#, "u"),
        Err(ExtractError::InvalidJson)
    );
}

#[test]
fn script_blocks_need_the_data_sjs_attribute() {
    let html = "a<script data-sjs>one</script>b<script>two</script><script x data-sjs>three";
    assert_eq!(script_blocks(html), ["one", "three"]);
}

#[test]
fn pages_merge_without_duplicates_oldest_first() {
    let p = |code: &str, t: i64| Post { code: code.into(), taken_at: t, url: code.into() };
    let merged = merge_pages(&vec![
        vec![p("a", 3), p("b", 1)],
        vec![p("b", 9), p("c", 2), p("d", 1)],
    ]);
    let codes: Vec<_> = merged.iter().map(|p| p.code.as_str()).collect();
    assert_eq!(codes, ["b", "d", "c", "a"]);
    assert!(merged.windows(2).all(|w| w[0].taken_at <= w[1].taken_at));
}
