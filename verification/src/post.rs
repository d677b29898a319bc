use vstd::prelude::*;
use crate::outside::{markdown_html, markdown_to_html, regex_capture_group, regex_group_texts};
use crate::text::push_char;

verus! {

/// A post or page of the blog, read from one file.
#[derive(Clone, Debug)]
pub struct Post {
    pub id: String,
    pub title: String,
    pub date: i64,
    pub content: String,
    pub slug: String,
    pub is_page: bool,
    pub tags: Vec<String>,
    pub hide_from_robots: bool,
    pub image: String,
    pub path: String,
    pub raw_content: String,
}

/// A post's fields as mathematical values.
pub struct PostView {
    pub id: Seq<char>,
    pub title: Seq<char>,
    pub date: i64,
    pub content: Seq<char>,
    pub slug: Seq<char>,
    pub is_page: bool,
    pub tags: Seq<Seq<char>>,
    pub hide_from_robots: bool,
    pub image: Seq<char>,
    pub path: Seq<char>,
    pub raw_content: Seq<char>,
}

/// The character sequences of a vector of strings.
pub open spec fn texts(v: Seq<String>) -> Seq<Seq<char>> {
    Seq::new(v.len(), |i: int| v[i]@)
}

impl View for Post {
    type V = PostView;

    open spec fn view(&self) -> PostView {
        PostView {
            id: self.id@,
            title: self.title@,
            date: self.date,
            content: self.content@,
            slug: self.slug@,
            is_page: self.is_page,
            tags: texts(self.tags@),
            hide_from_robots: self.hide_from_robots,
            image: self.image@,
            path: self.path@,
            raw_content: self.raw_content@,
        }
    }
}

/// The address of a post on the site: `/post/{id}/{slug}`.
pub open spec fn post_url(id: Seq<char>, slug: Seq<char>) -> Seq<char> {
    seq!['/', 'p', 'o', 's', 't', '/'] + id + seq!['/'] + slug
}

/// The pattern that finds the address of each image in a post's HTML; its second group
/// is the address.
pub open spec fn image_pattern() -> Seq<char> {
    "img src\\s{0,}=\\s{0,}(\"|')([^(\"|')]+)"@
}

/// The texts among optional texts, in order.
pub open spec fn present_texts(g: Seq<Option<Seq<char>>>) -> Seq<Seq<char>>
    decreases g.len(),
{
    if g.len() == 0 {
        Seq::empty()
    } else {
        match g.last() {
            Some(t) => present_texts(g.drop_last()).push(t),
            None => present_texts(g.drop_last()),
        }
    }
}

/// The addresses of the images in a post's HTML, in order.
pub open spec fn image_sources(html: Seq<char>) -> Seq<Seq<char>> {
    match regex_group_texts(image_pattern(), html, 2) {
        Some(groups) => present_texts(groups),
        None => Seq::empty(),
    }
}

impl Post {
    /// The post's content rendered from markdown as HTML.
    pub fn html(self) -> (html: String)
        ensures
            html@ == markdown_html(self.content@),
    {
        markdown_to_html(self.content.as_str())
    }

    /// The post's address on the site.
    pub fn url(self) -> (url: String)
        ensures
            url@ == post_url(self.id@, self.slug@),
    {
        let mut url = "/post/".to_owned();
        proof {
            reveal_strlit("/post/");
        }
        url.append(self.id.as_str());
        push_char(&mut url, '/');
        url.append(self.slug.as_str());
        url
    }

    /// The addresses of the images that the post's HTML shows, in order.
    pub fn images(self) -> (images: Vec<String>)
        ensures
            texts(images@) == image_sources(markdown_html(self.content@)),
    {
        let haystack = self.html();
        images_in_html(haystack.as_str())
    }
}

/// The addresses of the images that an HTML text shows, in order.
pub fn images_in_html(haystack: &str) -> (images: Vec<String>)
    ensures
        texts(images@) == image_sources(haystack@),
{
    let pattern = "img src\\s{0,}=\\s{0,}(\"|')([^(\"|')]+)";
    let mut results: Vec<String> = Vec::new();
    match regex_capture_group(pattern, haystack, 2) {
        None => {
            assert(texts(results@) =~= Seq::<Seq<char>>::empty());
        },
        Some(groups) => {
            let ghost g = crate::outside::optional_texts(groups@);
            let mut i: usize = 0;
            while i < groups.len()
                invariant
                    i <= groups.len(),
                    g == crate::outside::optional_texts(groups@),
                    texts(results@) == present_texts(g.take(i as int)),
                decreases groups.len() - i,
            {
                assert(g.take(i + 1).drop_last() =~= g.take(i as int));
                match &groups[i] {
                    Some(t) => {
                        let ghost before = texts(results@);
                        results.push(t.clone());
                        assert(texts(results@) =~= before.push(t@));
                    },
                    None => {},
                }
                i = i + 1;
            }
            assert(g.take(groups.len() as int) =~= g);
        },
    }
    results
}

} // verus!
