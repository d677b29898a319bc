use vstd::prelude::*;
use crate::blog::Blog;
use crate::outside::{markdown_html, markdown_to_html, render_rss, rss_xml};
use crate::pagination::articles_of;
use crate::post::{post_url, Post};

verus! {

/// One entry of a feed: a post's title, its HTML and the link to it.
pub struct FeedItem {
    pub title: String,
    pub content: String,
    pub link: String,
}

/// An RSS document, as the feed route answers it.
pub struct FeedResponse {
    pub content: String,
}

/// The (title, content, link) of the feed entry of each post: its title, its HTML, and the
/// blog's address followed by the post's address.
pub open spec fn feed_entries(blog_url: Seq<char>, posts: Seq<Post>) -> Seq<
    (Seq<char>, Seq<char>, Seq<char>),
> {
    Seq::new(
        posts.len(),
        |i: int|
            (
                posts[i].title@,
                markdown_html(posts[i].content@),
                blog_url + post_url(posts[i].id@, posts[i].slug@),
            ),
    )
}

/// The RSS feed of the blog with the given posts, titled with the blog's title and described
/// by its subtitle.
pub fn get_feed(context: Blog, items: Vec<Post>) -> (feed: FeedResponse)
    ensures
        feed.content@ == rss_xml(context.title@, context.sub_title@, feed_entries(context.url@, items@)),
{
    let mut raw_items: Vec<FeedItem> = Vec::new();
    let mut i: usize = 0;
    while i < items.len()
        invariant
            i <= items.len(),
            crate::outside::item_texts(raw_items@) =~= feed_entries(context.url@, items@).take(i as int),
        decreases items.len() - i,
    {
        let post = &items[i];
        let post_content = markdown_to_html(post.content.as_str());
        let mut link = context.url.clone();
        link.append("/post/");
        proof {
            reveal_strlit("/post/");
        }
        link.append(post.id.as_str());
        crate::text::push_char(&mut link, '/');
        link.append(post.slug.as_str());
        assert(link@ =~= context.url@ + post_url(post.id@, post.slug@));
        let ghost before = crate::outside::item_texts(raw_items@);
        let ghost entries = feed_entries(context.url@, items@);
        let item = FeedItem { title: post.title.clone(), content: post_content, link: link };
        assert((item.title@, item.content@, item.link@) == entries[i as int]);
        raw_items.push(item);
        assert(crate::outside::item_texts(raw_items@) =~= before.push(entries[i as int]));
        assert(entries.take(i + 1) =~= entries.take(i as int).push(entries[i as int]));
        i = i + 1;
    }
    assert(feed_entries(context.url@, items@).take(items.len() as int) =~= feed_entries(
        context.url@,
        items@,
    ));
    FeedResponse { content: render_rss(&context.title, &context.sub_title, &raw_items) }
}

/// The feed of all posts that are not pages.
pub fn feed_url(blog_context: Blog, posts: Vec<Post>) -> (feed: FeedResponse)
    ensures
        feed.content@ == rss_xml(
            blog_context.title@,
            blog_context.sub_title@,
            feed_entries(blog_context.url@, articles_of(posts@)),
        ),
{
    let all_posts = crate::routes::articles(posts);
    get_feed(blog_context, all_posts)
}

/// The feed has one entry per post, in order: its title is the post's title, its content the
/// post's HTML, and its link the blog's address followed by `/post/`, the post's id, `/` and
/// its slug.
pub proof fn law_feed_entry_of_each_post(blog_url: Seq<char>, posts: Seq<Post>, i: int)
    requires
        0 <= i < posts.len(),
    ensures
        feed_entries(blog_url, posts).len() == posts.len(),
        feed_entries(blog_url, posts)[i].0 == posts[i].title@,
        feed_entries(blog_url, posts)[i].1 == markdown_html(posts[i].content@),
        feed_entries(blog_url, posts)[i].2 == blog_url + "/post/"@ + posts[i].id@ + "/"@ + posts[i].slug@,
{
    reveal_strlit("/post/");
    reveal_strlit("/");
    assert(blog_url + post_url(posts[i].id@, posts[i].slug@) =~= blog_url + "/post/"@ + posts[i].id@ + "/"@
        + posts[i].slug@);
}

} // verus!
