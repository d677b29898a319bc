use spargel::blog::Blog;
use spargel::feed::{feed_url, get_feed};
use spargel::helpers::{
    get_posts, is_ext_allowed, parse_post, post_id, read_tag_line, sort_files_by_name,
    sort_posts_by_date, PostFile,
};
use spargel::pagination::{is_pickle_file, page_source, path_join, pickle_path, PageSource, Pagination};
use spargel::post::{images_in_html, Post};
use spargel::routes::{
    accepts_deletion, accepts_upload, articles, draft_post, edit_action, find_post, index_with_token, is_edit_mode,
    media_urls, media_with_token, resize_target, robots_txt, shows_existing_post, thumbnail_name,
    upload_path, EditAction,
};
use spargel::text::{split_lines, to_chars, trim_chars};
use std::collections::HashMap;

fn blog() -> Blog {
    Blog {
        title: String::from("My Blog"),
        sub_title: String::from("About things"),
        meta: HashMap::new(),
        url: String::from("https://blog.example"),
        token: String::from("secret"),
        theme: String::from("terminal.css"),
    }
}

fn post(id: &str, date: i64, is_page: bool, tags: &[&str], hide: bool) -> Post {
    Post {
        id: id.to_string(),
        title: format!("Title {}", id),
        date,
        content: format!("Text of {}", id),
        slug: format!("slug-{}", id),
        is_page,
        tags: tags.iter().map(|t| t.to_string()).collect(),
        hide_from_robots: hide,
        image: String::new(),
        path: format!("/srv/posts/{}", id),
        raw_content: String::new(),
    }
}

fn ids(posts: &[Post]) -> Vec<String> {
    posts.iter().map(|p| p.id.clone()).collect()
}

fn s(v: &[&str]) -> Vec<String> {
    v.iter().map(|x| x.to_string()).collect()
}

#[test]
fn ext_allowed_for_image_extensions() {
    assert!(is_ext_allowed("cat.png".to_string()));
    assert!(is_ext_allowed("cat.jpeg".to_string()));
    assert!(is_ext_allowed("cat.gif".to_string()));
    assert!(is_ext_allowed("cat.jpg".to_string()));
    assert!(is_ext_allowed(".png".to_string()));
}

#[test]
fn ext_refused_otherwise() {
    assert!(!is_ext_allowed("cat.txt".to_string()));
    assert!(!is_ext_allowed("cat.PNG".to_string()));
    assert!(!is_ext_allowed("png".to_string()));
    assert!(!is_ext_allowed("cat.png.exe".to_string()));
    assert!(!is_ext_allowed(String::new()));
}

#[test]
fn post_url_joins_id_and_slug() {
    let p = post("abc", 1, false, &[], false);
    let mut q = p.clone();
    q.slug = "hello-world".to_string();
    assert_eq!(q.url(), "/post/abc/hello-world");
}

#[test]
fn post_html_renders_markdown() {
    let mut p = post("a", 1, false, &[], false);
    p.content = "# Hi Mercury!".to_string();
    assert_eq!(p.html(), "<h1>Hi Mercury!</h1>");
}

#[test]
fn post_images_lists_image_addresses() {
    let mut p = post("a", 1, false, &[], false);
    p.content = "![one](http://x/a.png) and ![two](http://y/b.gif)".to_string();
    assert_eq!(p.images(), s(&["http://x/a.png", "http://y/b.gif"]));
}

#[test]
fn images_in_html_without_images_is_empty() {
    assert!(images_in_html("<p>no pictures</p>").is_empty());
    assert_eq!(images_in_html("<img src='q.png' alt=''>"), s(&["q.png"]));
}

#[test]
fn post_id_is_md5_hex_of_path() {
    assert_eq!(post_id("abc"), "900150983cd24fb0d6963f7d28e17f72");
    assert_eq!(post_id("").len(), 32);
    assert_eq!(post_id("/srv/posts/hello.md"), "e3a9efafe80d4e173eb3d5f9d455130b");
}

#[test]
fn tag_line_markers_and_categories() {
    let (tags, hidden, page) = read_tag_line(&to_chars(":post,:hide, :travel ,:food"));
    assert_eq!(tags, s(&["travel", "food"]));
    assert!(hidden);
    assert!(!page);
    let (tags, hidden, page) = read_tag_line(&to_chars(":page"));
    assert!(tags.is_empty());
    assert!(!hidden);
    assert!(page);
}

#[test]
fn tag_line_colons_removed_everywhere() {
    let (tags, _, _) = read_tag_line(&to_chars("a:b:c,,  "));
    assert_eq!(tags, s(&["abc", "", ""]));
}

#[test]
fn lines_follow_str_lines() {
    let text = "one\r\ntwo\n\nthree\r";
    let ls: Vec<String> = split_lines(&to_chars(text)).iter().map(|l| l.iter().collect()).collect();
    let expected: Vec<String> = text.lines().map(|l| l.to_string()).collect();
    assert_eq!(ls, expected);
    assert!(split_lines(&to_chars("")).is_empty());
    assert_eq!(split_lines(&to_chars("a\n")).len(), 1);
}

#[test]
fn trim_follows_str_trim() {
    for text in ["  a b \t", "\u{3000}x\u{a0}", "", "   ", "x"] {
        let t: String = trim_chars(&to_chars(text)).iter().collect();
        assert_eq!(t, text.trim());
    }
}

#[test]
fn parse_post_reads_all_fields() {
    let raw = "Hello World\n2024-01-02 03:04\n:post,:hide, :travel\nSome **text**\n![pic](https://blog.example/uploads/cat.png)\n";
    let p = parse_post("/srv/posts/hello.md".to_string(), raw.to_string(), &blog().url).unwrap();
    assert_eq!(p.id, "e3a9efafe80d4e173eb3d5f9d455130b");
    assert_eq!(p.title, "Hello World");
    assert_eq!(p.date, 1704164640);
    assert_eq!(p.content, "Some **text**\n![pic](https://blog.example/uploads/cat.png)\n");
    assert_eq!(p.slug, "hello-world");
    assert!(!p.is_page);
    assert_eq!(p.tags, s(&["travel"]));
    assert!(p.hide_from_robots);
    assert_eq!(p.image, "https://blog.example/uploads/thumb_cat.png");
    assert_eq!(p.path, "/srv/posts/hello.md");
    assert_eq!(p.raw_content, raw);
}

#[test]
fn parse_post_foreign_image_kept() {
    let raw = "Pics\n2024-01-02 03:04\n:page\n![a](https://other.example/x/dog.jpg)\n";
    let p = parse_post("/p".to_string(), raw.to_string(), &blog().url).unwrap();
    assert_eq!(p.image, "https://other.example/x/dog.jpg");
    assert!(p.is_page);
    assert!(p.tags.is_empty());
}

#[test]
fn parse_post_without_image() {
    let raw = "Plain\n2024-01-02 03:04\n:post";
    let p = parse_post("/p".to_string(), raw.to_string(), &blog().url).unwrap();
    assert_eq!(p.image, "");
    assert_eq!(p.content, "");
}

#[test]
fn parse_post_thumb_replaces_every_occurrence() {
    let raw = "T\n2024-01-02 03:04\n:post\n![a](https://blog.example/cat.png/cat.png)\n";
    let p = parse_post("/p".to_string(), raw.to_string(), &blog().url).unwrap();
    assert_eq!(p.image, "https://blog.example/thumb_cat.png/thumb_cat.png");
}

#[test]
fn parse_post_refuses_short_file() {
    assert!(parse_post("/p".to_string(), "Title\n2024-01-02 03:04".to_string(), &blog().url).is_none());
    assert!(parse_post("/p".to_string(), String::new(), &blog().url).is_none());
}

#[test]
fn parse_post_refuses_bad_date() {
    assert!(parse_post("/p".to_string(), "Title\nyesterday\n:post\n".to_string(), &blog().url).is_none());
}

#[test]
fn parse_post_refuses_image_without_file_name() {
    let raw = "T\n2024-01-02 03:04\n:post\n![a](https://blog.example/..)\n";
    assert!(parse_post("/p".to_string(), raw.to_string(), &blog().url).is_none());
}

fn file(name: &str, raw: &str) -> PostFile {
    PostFile { name: name.to_string(), raw_content: raw.to_string() }
}

#[test]
fn get_posts_sorts_newest_first_stably() {
    let files = vec![
        file("c.md", "C\n2024-01-01 00:00\n:post\n"),
        file("b.md", "B\n2024-03-01 00:00\n:post\n"),
        file("a.md", "A\n2024-01-01 00:00\n:post\n"),
    ];
    let posts = get_posts(&blog(), &"/srv/posts".to_string(), files).unwrap();
    let titles: Vec<String> = posts.iter().map(|p| p.title.clone()).collect();
    assert_eq!(titles, s(&["B", "A", "C"]));
    let paths: Vec<String> = posts.iter().map(|p| p.path.clone()).collect();
    assert_eq!(paths, s(&["/srv/posts/b.md", "/srv/posts/a.md", "/srv/posts/c.md"]));
    assert_eq!(posts[1].id, post_id("/srv/posts/a.md"));
}

#[test]
fn get_posts_fails_on_bad_file() {
    let files = vec![file("a", "A\n2024-01-01 00:00\n:post\n"), file("b", "B\n")];
    assert!(get_posts(&blog(), &"/srv/posts".to_string(), files).is_none());
    assert!(get_posts(&blog(), &"/srv/posts".to_string(), Vec::new()).unwrap().is_empty());
}

#[test]
fn sort_posts_by_date_law_on_values() {
    let posts = vec![post("a", 5, false, &[], false), post("b", 9, false, &[], false), post("c", 5, false, &[], false), post("d", 7, false, &[], false)];
    assert_eq!(ids(&sort_posts_by_date(posts)), s(&["b", "d", "a", "c"]));
}

#[test]
fn files_sorted_by_name() {
    let files = vec![file("b.md", "1"), file("a.md", "2"), file("c", "3"), file("B", "4"), file("a", "5")];
    let names: Vec<String> = sort_files_by_name(files).into_iter().map(|f| f.name).collect();
    assert_eq!(names, s(&["B", "a", "a.md", "b.md", "c"]));
}

fn many_posts() -> Vec<Post> {
    let mut v = Vec::new();
    for i in 0..20 {
        let tags: &[&str] = if i % 3 == 0 { &["rust"] } else { &[] };
        v.push(post(&format!("p{}", i), 100 - i as i64, false, tags, false));
        if i == 4 || i == 11 {
            v.push(post(&format!("page{}", i), 0, true, &[], false));
        }
    }
    v
}

#[test]
fn pagination_first_page() {
    let p = Pagination::get(many_posts(), 1, None);
    assert_eq!(ids(&p.items), s(&["p0", "p1", "p2", "p3", "p4", "p5", "p6", "p7"]));
    assert_eq!(ids(&p.pages), s(&["page4", "page11"]));
    assert_eq!(p.all_pages, 3);
    assert_eq!(p.item_count, 2);
    assert_eq!(p.cur_page, 1);
    assert!(p.has_next);
    assert!(!p.has_prev);
}

#[test]
fn pagination_last_and_beyond() {
    let p = Pagination::get(many_posts(), 3, None);
    assert_eq!(ids(&p.items), s(&["p16", "p17", "p18", "p19"]));
    assert!(!p.has_next);
    assert!(p.has_prev);
    let p = Pagination::get(many_posts(), 4, Some("index".to_string()));
    assert!(p.items.is_empty());
    assert_eq!(p.all_pages, 3);
}

#[test]
fn pagination_with_tag_counts_all_posts() {
    let p = Pagination::get(many_posts(), 1, Some("rust".to_string()));
    assert_eq!(ids(&p.items), s(&["p0", "p3", "p6", "p9", "p12", "p15", "p18"]));
    assert_eq!(p.all_pages, 3);
    assert!(p.has_next);
    let p = Pagination::get(many_posts(), 1, Some(String::new()));
    assert_eq!(p.items.len(), 8);
}

#[test]
fn pagination_exact_multiple_of_eight() {
    let posts: Vec<Post> = (0..16).map(|i| post(&format!("q{}", i), 0, false, &[], false)).collect();
    let p = Pagination::get(posts, 2, None);
    assert_eq!(p.all_pages, 2);
    assert_eq!(p.item_count, 2);
    assert!(!p.has_next);
    let p = Pagination::get(Vec::new(), 1, None);
    assert_eq!(p.all_pages, 0);
    assert!(!p.has_next);
}

#[test]
fn pages_hold_the_list_law_on_values() {
    let listed: Vec<String> = ids(&articles(many_posts()));
    let pages = Pagination::get(many_posts(), 1, None).all_pages;
    let mut all = Vec::new();
    for page in 1..=pages {
        let items = Pagination::get(many_posts(), page, None).items;
        assert!(!items.is_empty() && items.len() <= 8);
        all.extend(ids(&items));
    }
    assert_eq!(all, listed);
    for (i, id) in listed.iter().enumerate() {
        let items = Pagination::get(many_posts(), i / 8 + 1, None).items;
        assert_eq!(&items[i % 8].id, id);
    }
}

#[test]
fn pagination_get_posts_is_index_first_page() {
    let p = Pagination::get_posts(many_posts());
    let q = Pagination::get(many_posts(), 1, None);
    assert_eq!(ids(&p.items), ids(&q.items));
    assert_eq!(p.all_pages, q.all_pages);
}

#[test]
fn get_post_finds_first_with_id() {
    let mut posts = vec![post("x", 1, false, &[], false), post("y", 2, false, &[], false), post("y", 3, false, &[], false)];
    posts[1].title = "first y".to_string();
    let found = Pagination::get_post(posts.clone(), "y".to_string()).unwrap();
    assert_eq!(found.title, "first y");
    assert!(Pagination::get_post(posts, "z".to_string()).is_none());
}

#[test]
fn find_post_falls_back_to_pages() {
    let items = vec![post("a", 1, false, &[], false)];
    let pages = vec![post("about", 1, true, &[], false)];
    assert_eq!(find_post(items.clone(), pages.clone(), "about".to_string()).unwrap().id, "about");
    assert_eq!(find_post(items.clone(), pages.clone(), "a".to_string()).unwrap().id, "a");
    assert!(find_post(items, pages, "none".to_string()).is_none());
}

#[test]
fn feed_holds_posts() {
    let mut p = post("abc", 1, false, &[], false);
    p.content = "**bold**".to_string();
    let feed = get_feed(blog(), vec![p]);
    assert!(feed.content.contains("<title>My Blog</title>"));
    assert!(feed.content.contains("<description>About things</description>"));
    assert!(feed.content.contains("<link>https://blog.example/post/abc/slug-abc</link>"));
    assert!(feed.content.contains("strong"));
}

#[test]
fn feed_url_leaves_out_pages() {
    let feed = feed_url(blog(), vec![post("a", 1, false, &[], false), post("b", 1, true, &[], false)]);
    assert!(feed.content.contains("/post/a/slug-a"));
    assert!(!feed.content.contains("/post/b/slug-b"));
}

#[test]
fn robots_lists_hidden_posts() {
    let posts = vec![post("a", 1, false, &[], true), post("b", 1, false, &[], false), post("c", 1, true, &[], true)];
    assert_eq!(robots_txt(&posts), "User-Agent: *\nDisallow: /post/a/slug-a\nDisallow: /post/c/slug-c\n");
    assert_eq!(robots_txt(&Vec::new()), "User-Agent: *\n");
}

#[test]
fn media_urls_only_images() {
    let urls = media_urls(&blog().url, s(&["a.png", "notes.txt", "b.jpg"]));
    assert_eq!(urls, s(&["https://blog.example/uploads/a.png", "https://blog.example/uploads/b.jpg"]));
}

#[test]
fn resize_only_wide_images() {
    assert_eq!(resize_target(2048, 1000), Some((1024, 500)));
    assert_eq!(resize_target(1500, 900), Some((1024, 900)));
    assert_eq!(resize_target(1024, 900), None);
    assert_eq!(resize_target(3100, 999), Some((1024, 333)));
}

#[test]
fn pickle_paths() {
    assert_eq!(pickle_path(&"index".to_string(), 1), Some("./cache/index_1.bin".to_string()));
    assert_eq!(pickle_path(&"rust".to_string(), 120), Some("./cache/rust_120.bin".to_string()));
    assert_eq!(pickle_path(&"/tmp/x".to_string(), 2), Some("/tmp/x_2.bin".to_string()));
    assert_eq!(pickle_path(&String::new(), 1), None);
    assert!(is_pickle_file(&"index_1.bin".to_string()));
    assert!(!is_pickle_file(&"index_1.bin.txt".to_string()));
}

#[test]
fn joins_follow_path_join() {
    assert_eq!(path_join(&"./uploads".to_string(), &"a.png".to_string()), "./uploads/a.png");
    assert_eq!(upload_path(&"a.png".to_string()), "./uploads/a.png");
    assert_eq!(upload_path(&"/etc/x".to_string()), "/etc/x");
    assert_eq!(thumbnail_name(&"a.png".to_string()), "thumb_a.png");
}

#[test]
fn tokens_and_actions() {
    let b = blog();
    assert!(is_edit_mode(&b, Some("secret".to_string())));
    assert!(!is_edit_mode(&b, Some("guess".to_string())));
    assert!(!is_edit_mode(&b, None));
    assert!(matches!(edit_action(&b, &"guess".to_string(), &"delete".to_string()), EditAction::Refuse));
    assert!(matches!(edit_action(&b, &"secret".to_string(), &"delete".to_string()), EditAction::Delete));
    assert!(matches!(edit_action(&b, &"secret".to_string(), &"save".to_string()), EditAction::Save));
    assert!(accepts_upload(&b, &"secret".to_string(), &"a.gif".to_string()));
    assert!(!accepts_upload(&b, &"secret".to_string(), &"a.exe".to_string()));
    assert!(!accepts_upload(&b, &"x".to_string(), &"a.gif".to_string()));
    assert!(accepts_deletion(&b, &"secret".to_string()));
    assert!(!accepts_deletion(&b, &"Secret".to_string()));
    assert_eq!(index_with_token(&"secret".to_string()), "/?token=secret");
    assert_eq!(media_with_token(&"secret".to_string()), "/media?token=secret");
}

#[test]
fn new_post_draft() {
    assert!(shows_existing_post(&"abc".to_string(), true));
    assert!(shows_existing_post(&"new".to_string(), false));
    assert!(!shows_existing_post(&"new".to_string(), true));
    let d = draft_post("/srv/posts/new".to_string());
    assert_eq!(d.id, "3ac48a4708f09982b9fbdcf274f6ef44");
    assert_eq!(d.slug, "new");
    assert_eq!(d.title, "new");
    assert_eq!(d.date, 1);
    assert_eq!(d.raw_content, "Lorem Ipsum\n1970-01-01 00:00\n:post\n# Lorem Ipsum\n");
    assert!(!d.is_page && !d.hide_from_robots && d.tags.is_empty());
}

#[test]
fn page_source_prefers_existing_cache() {
    assert!(matches!(page_source(Some("./cache/index_1.bin".to_string()), true), PageSource::Cached(p) if p == "./cache/index_1.bin"));
    assert!(matches!(page_source(Some("./cache/index_1.bin".to_string()), false), PageSource::Compute));
    assert!(matches!(page_source(None, false), PageSource::Compute));
}

#[test]
fn each_post_read_from_its_file_on_values() {
    let raw = "Trip\n2024-05-06 07:08\n :travel,:page, x:y ,:hide\nline one\r\nline two";
    let posts = get_posts(&blog(), &"/srv/posts".to_string(), vec![file("t.md", raw)]).unwrap();
    let p = &posts[0];
    assert_eq!(p.path, "/srv/posts/t.md");
    assert_eq!(p.id, post_id("/srv/posts/t.md"));
    assert_eq!(p.id.len(), 32);
    assert_eq!(p.tags, s(&["travel", "xy"]));
    assert!(p.is_page && p.hide_from_robots);
    assert_eq!(p.content, "line one\nline two\n");
    assert_eq!(p.image, "");
}
