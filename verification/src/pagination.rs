use vstd::prelude::*;
use crate::post::Post;
use crate::text::{chars_ends_with, chars_eq, decimal, decimal_chars, ends_with, push_chars, to_chars};

verus! {

/// How many posts a page shows.
pub const POSTS_PER_PAGE: usize = 8;

/// One page of the blog's post list, with the pages (static posts) beside it.
pub struct Pagination {
    pub has_next: bool,
    pub has_prev: bool,
    pub item_count: usize,
    pub cur_page: usize,
    pub all_pages: usize,
    pub items: Vec<Post>,
    pub pages: Vec<Post>,
}

/// The posts that are pages, in order.
pub open spec fn pages_of(s: Seq<Post>) -> Seq<Post>
    decreases s.len(),
{
    if s.len() == 0 {
        s
    } else if s.last().is_page {
        pages_of(s.drop_last()).push(s.last())
    } else {
        pages_of(s.drop_last())
    }
}

/// The posts that are not pages, in order.
pub open spec fn articles_of(s: Seq<Post>) -> Seq<Post>
    decreases s.len(),
{
    if s.len() == 0 {
        s
    } else if !s.last().is_page {
        articles_of(s.drop_last()).push(s.last())
    } else {
        articles_of(s.drop_last())
    }
}

/// Whether one of a post's tags is `tag`.
pub open spec fn has_tag(p: Post, tag: Seq<char>) -> bool {
    exists|j: int| 0 <= j < p.tags@.len() && p.tags@[j]@ == tag
}

/// The posts that have the tag `tag`, in order.
pub open spec fn tagged(s: Seq<Post>, tag: Seq<char>) -> Seq<Post>
    decreases s.len(),
{
    if s.len() == 0 {
        s
    } else if has_tag(s.last(), tag) {
        tagged(s.drop_last(), tag).push(s.last())
    } else {
        tagged(s.drop_last(), tag)
    }
}

/// The name of the list of all posts, which selects no tag.
pub open spec fn index_slug() -> Seq<char> {
    seq!['i', 'n', 'd', 'e', 'x']
}

/// The tag that a list is restricted to: none for no name, an empty name or `index`.
pub open spec fn selected_tag(tag: Option<Seq<char>>) -> Option<Seq<char>> {
    match tag {
        Some(t) => if t.len() > 0 && t != index_slug() {
            Some(t)
        } else {
            None
        },
        None => None,
    }
}

/// The posts (not pages) that a list shows, in order: those with the selected tag, or all.
pub open spec fn listed_posts(posts: Seq<Post>, tag: Option<Seq<char>>) -> Seq<Post> {
    match selected_tag(tag) {
        Some(t) => tagged(articles_of(posts), t),
        None => articles_of(posts),
    }
}

/// How many pages `n` posts fill, eight to a page, the last one perhaps not full.
pub open spec fn page_count(n: nat) -> nat {
    n / 8 + if n % 8 != 0 {
        1nat
    } else {
        0nat
    }
}

/// The smaller of two integers.
pub open spec fn min(a: int, b: int) -> int {
    if a <= b {
        a
    } else {
        b
    }
}

/// The posts that page `page` (counted from 1) shows: positions `(page - 1) * 8` up to
/// eight more, as far as there are posts.
pub open spec fn page_window(s: Seq<Post>, page: int) -> Seq<Post> {
    let start = (page - 1) * 8;
    s.subrange(min(start, s.len() as int), min(start + 8, s.len() as int))
}

/// The text of an optional string.
pub open spec fn optional_text(o: Option<String>) -> Option<Seq<char>> {
    match o {
        Some(s) => Some(s@),
        None => None,
    }
}

/// `p` is page `current` of the list of `posts` for the tag `tag`.
///
/// The number of pages and `item_count` count all posts that are not pages, whatever
/// the tag; `items` are the ones the page shows of the posts with the tag.
pub open spec fn is_page_of(p: Pagination, posts: Seq<Post>, current: int, tag: Option<Seq<char>>) -> bool {
    let total = articles_of(posts).len();
    &&& p.pages@ == pages_of(posts)
    &&& p.items@ == page_window(listed_posts(posts, tag), current)
    &&& p.item_count == total / 8
    &&& p.all_pages == page_count(total)
    &&& p.cur_page == current
    &&& p.has_prev == (current > 1)
    &&& p.has_next == (current < page_count(total))
}

/// Whether one of a post's tags is `tag`.
pub fn post_has_tag(p: &Post, tag: &String) -> (r: bool)
    ensures
        r == has_tag(*p, tag@),
{
    let mut j: usize = 0;
    while j < p.tags.len()
        invariant
            j <= p.tags.len(),
            forall|m: int| 0 <= m < j ==> p.tags@[m]@ != tag@,
        decreases p.tags.len() - j,
    {
        if p.tags[j] == *tag {
            return true;
        }
        j = j + 1;
    }
    false
}

impl Pagination {
    /// Page `current_site` (counted from 1) of the blog's posts, restricted to the posts with
    /// the tag `tag` unless it is absent, empty or `index`. The page numbers count on from 1,
    /// and `current_site * 8` has to fit a `usize`.
    pub fn get(posts: Vec<Post>, current_site: usize, tag: Option<String>) -> (p: Pagination)
        requires
            1 <= current_site <= usize::MAX / 8,
        ensures
            is_page_of(p, posts@, current_site as int, optional_text(tag)),
    {
        let ghost orig = posts@;
        let mut rest = posts;
        let mut pages: Vec<Post> = Vec::new();
        let mut articles: Vec<Post> = Vec::new();
        let ghost mut k: int = 0;
        assert(orig.skip(0) =~= rest@);
        assert(orig.take(0) =~= Seq::<Post>::empty());
        while rest.len() > 0
            invariant
                0 <= k <= orig.len(),
                k + rest.len() == orig.len(),
                rest@ == orig.skip(k),
                pages@ == pages_of(orig.take(k)),
                articles@ == articles_of(orig.take(k)),
            decreases rest.len(),
        {
            let p = rest.remove(0);
            assert(orig.take(k + 1).drop_last() =~= orig.take(k));
            assert(orig.take(k + 1).last() == p);
            assert(rest@ =~= orig.skip(k + 1));
            if p.is_page {
                pages.push(p);
            } else {
                articles.push(p);
            }
            proof {
                k = k + 1;
            }
        }
        assert(orig.take(k) =~= orig);
        let total_items_count = articles.len();
        let ghost selected = selected_tag(optional_text(tag));
        let listed = match tag {
            Some(inner) => {
                let inner_chars = to_chars(inner.as_str());
                let index = vec!['i', 'n', 'd', 'e', 'x'];
                if inner_chars.len() > 0 && !chars_eq(&inner_chars, &index) {
                    Self::with_tag(articles, &inner)
                } else {
                    articles
                }
            },
            None => articles,
        };
        assert(listed@ == listed_posts(orig, optional_text(tag)));
        let post_per_page: usize = POSTS_PER_PAGE;
        let all_pages = total_items_count / post_per_page;
        let offset = total_items_count - all_pages * post_per_page;
        let incomplete_pages_count: usize = if offset != 0 {
            1
        } else {
            0
        };
        let all_pages_count_with_incomplete = all_pages + incomplete_pages_count;
        let has_prev = current_site > 1;
        let has_next = current_site < all_pages_count_with_incomplete;
        let start_index: usize = (current_site - 1) * post_per_page;
        let items = Self::window(listed, start_index);
        Pagination {
            has_next: has_next,
            has_prev: has_prev,
            item_count: all_pages,
            cur_page: current_site,
            all_pages: all_pages_count_with_incomplete,
            items: items,
            pages: pages,
        }
    }

    /// The posts that have the tag `tag`, in order.
    fn with_tag(posts: Vec<Post>, tag: &String) -> (r: Vec<Post>)
        ensures
            r@ == tagged(posts@, tag@),
    {
        let ghost orig = posts@;
        let mut rest = posts;
        let mut kept: Vec<Post> = Vec::new();
        let ghost mut k: int = 0;
        assert(orig.skip(0) =~= rest@);
        assert(orig.take(0) =~= Seq::<Post>::empty());
        while rest.len() > 0
            invariant
                0 <= k <= orig.len(),
                k + rest.len() == orig.len(),
                rest@ == orig.skip(k),
                kept@ == tagged(orig.take(k), tag@),
            decreases rest.len(),
        {
            let p = rest.remove(0);
            assert(orig.take(k + 1).drop_last() =~= orig.take(k));
            assert(orig.take(k + 1).last() == p);
            assert(rest@ =~= orig.skip(k + 1));
            if post_has_tag(&p, tag) {
                kept.push(p);
            }
            proof {
                k = k + 1;
            }
        }
        assert(orig.take(k) =~= orig);
        kept
    }

    /// The posts at positions `start` up to `start + 8`, as far as there are posts.
    fn window(posts: Vec<Post>, start: usize) -> (r: Vec<Post>)
        requires
            start + 8 <= usize::MAX,
        ensures
            r@ == posts@.subrange(min(start as int, posts@.len() as int), min(start + 8, posts@.len() as int)),
    {
        let ghost orig = posts@;
        let mut rest = posts;
        let mut items: Vec<Post> = Vec::new();
        let mut n: usize = 0;
        let len = rest.len();
        assert(orig.len() == len);
        assert(orig.skip(0) =~= rest@);
        while rest.len() > 0
            invariant
                start + 8 <= usize::MAX,
                orig.len() <= usize::MAX,
                n + rest.len() == orig.len(),
                rest@ == orig.skip(n as int),
                items@ == orig.subrange(min(start as int, n as int), min(start + 8, n as int)),
            decreases rest.len(),
        {
            let p = rest.remove(0);
            assert(p == orig[n as int]);
            assert(rest@ =~= orig.skip(n + 1));
            let ghost before = items@;
            if start <= n && n < start + 8 {
                items.push(p);
                assert(items@ =~= orig.subrange(min(start as int, n + 1), min(start + 8, n + 1)));
            } else {
                assert(before =~= orig.subrange(min(start as int, n + 1), min(start + 8, n + 1)));
            }
            n = n + 1;
        }
        items
    }

    /// The first page of the list of all posts, as the index shows it.
    pub fn get_posts(posts: Vec<Post>) -> (p: Pagination)
        ensures
            is_page_of(p, posts@, 1, Some(index_slug())),
    {
        let index = "index".to_owned();
        proof {
            reveal_strlit("index");
            assert(index@ =~= index_slug());
        }
        Self::get(posts, 1, Some(index))
    }

    /// The first post with the id `id`, if there is one.
    pub fn get_post(posts: Vec<Post>, id: String) -> (found: Option<Post>)
        ensures
            found == first_with_id(posts@, id@),
    {
        let ghost orig = posts@;
        let mut rest = posts;
        let ghost mut k: int = 0;
        assert(orig.skip(0) =~= rest@);
        while rest.len() > 0
            invariant
                0 <= k <= orig.len(),
                orig == posts@,
                rest@ == orig.skip(k),
                first_with_id(orig, id@) == first_with_id(orig.skip(k), id@),
            decreases rest.len(),
        {
            let p = rest.remove(0);
            assert(p == orig.skip(k)[0]);
            assert(orig.skip(k).drop_first() =~= orig.skip(k + 1));
            assert(rest@ =~= orig.skip(k + 1));
            if p.id == id {
                return Some(p);
            }
            proof {
                k = k + 1;
            }
        }
        None
    }
}

/// The first post in `s` with the id `id`.
pub open spec fn first_with_id(s: Seq<Post>, id: Seq<char>) -> Option<Post>
    decreases s.len(),
{
    if s.len() == 0 {
        None
    } else if s[0].id@ == id {
        Some(s[0])
    } else {
        first_with_id(s.drop_first(), id)
    }
}

/// `name` taken relative to the folder `base`: `name` itself when it is absolute (begins
/// with `/`), else `base`, a slash and `name` (`Path::join` for a `base` that does not end
/// with a slash).
pub open spec fn joined_path(base: Seq<char>, name: Seq<char>) -> Seq<char> {
    if name.len() > 0 && name[0] == '/' {
        name
    } else {
        base.push('/') + name
    }
}

/// `name` taken relative to the folder `base` (`Path::join`).
pub fn path_join(base: &String, name: &String) -> (path: String)
    requires
        base@.len() > 0,
        base@.last() != '/',
    ensures
        path@ == joined_path(base@, name@),
{
    let name_chars = to_chars(name.as_str());
    if name_chars.len() > 0 && name_chars[0] == '/' {
        name.clone()
    } else {
        let mut path = base.clone();
        crate::text::push_char(&mut path, '/');
        path.append(name.as_str());
        path
    }
}

/// The folder where computed pages are kept.
pub open spec fn cache_folder() -> Seq<char> {
    seq!['.', '/', 'c', 'a', 'c', 'h', 'e']
}

/// The file that keeps page `page` of the list named `slug`: `{slug}_{page}.bin` in the
/// cache folder; none for an empty name.
pub open spec fn pickle_file(slug: Seq<char>, page: nat) -> Option<Seq<char>> {
    if slug.len() == 0 {
        None
    } else {
        Some(joined_path(cache_folder(), slug.push('_') + decimal(page) + seq!['.', 'b', 'i', 'n']))
    }
}

/// The file that keeps page `page` of the list named `page_slug`, if it has a name.
pub fn pickle_path(page_slug: &String, page: usize) -> (path: Option<String>)
    ensures
        match path {
            Some(p) => pickle_file(page_slug@, page as nat) == Some(p@),
            None => pickle_file(page_slug@, page as nat) is None,
        },
{
    let slug_chars = to_chars(page_slug.as_str());
    if slug_chars.len() == 0 {
        return None;
    }
    let mut name = page_slug.clone();
    crate::text::push_char(&mut name, '_');
    let digits = decimal_chars(page);
    push_chars(&mut name, &digits);
    let ext = vec!['.', 'b', 'i', 'n'];
    push_chars(&mut name, &ext);
    let folder = "./cache".to_owned();
    proof {
        reveal_strlit("./cache");
        assert(folder@ =~= cache_folder());
    }
    Some(path_join(&folder, &name))
}

/// Where a page comes from: the cache file that keeps it, or a fresh computation.
pub enum PageSource {
    Cached(String),
    Compute,
}

/// Where a page comes from, given the cache file for it (none for a list without a name) and
/// whether that file exists: the cache when it does, else a fresh computation.
pub fn page_source(cache_file: Option<String>, cache_file_exists: bool) -> (source: PageSource)
    ensures
        match source {
            PageSource::Cached(path) => cache_file == Some(path) && cache_file_exists,
            PageSource::Compute => cache_file is None || !cache_file_exists,
        },
{
    match cache_file {
        Some(path) => if cache_file_exists {
            PageSource::Cached(path)
        } else {
            PageSource::Compute
        },
        None => PageSource::Compute,
    }
}

/// Whether a file in the cache folder keeps a computed page: its name ends with `.bin`.
pub open spec fn is_pickle_name(name: Seq<char>) -> bool {
    ends_with(name, seq!['.', 'b', 'i', 'n'])
}

/// Whether a file in the cache folder keeps a computed page.
pub fn is_pickle_file(name: &String) -> (r: bool)
    ensures
        r == is_pickle_name(name@),
{
    let name_chars = to_chars(name.as_str());
    let ext = vec!['.', 'b', 'i', 'n'];
    chars_ends_with(&name_chars, &ext)
}

/// The posts of pages 1 to `n`, one page after the other.
pub open spec fn first_pages(s: Seq<Post>, n: nat) -> Seq<Post>
    decreases n,
{
    if n == 0 {
        Seq::empty()
    } else {
        first_pages(s, (n - 1) as nat) + page_window(s, n as int)
    }
}

proof fn lemma_first_pages_prefix(s: Seq<Post>, n: nat)
    ensures
        first_pages(s, n) == s.subrange(0, min(8 * (n as int), s.len() as int)),
    decreases n,
{
    if n == 0 {
        assert(s.subrange(0, 0) =~= Seq::<Post>::empty());
    } else {
        lemma_first_pages_prefix(s, (n - 1) as nat);
        let a = min(8 * (n - 1), s.len() as int);
        let b = min(8 * (n as int), s.len() as int);
        assert(s.subrange(0, a) + s.subrange(a, b) =~= s.subrange(0, b));
    }
}

/// Paging loses and repeats no post: the pages from the first to the last, one after the
/// other, hold exactly the listed posts in their order.
pub proof fn law_pages_hold_the_list(listed: Seq<Post>)
    ensures
        first_pages(listed, page_count(listed.len())) == listed,
{
    lemma_first_pages_prefix(listed, page_count(listed.len()));
    assert(8 * page_count(listed.len()) >= listed.len());
    assert(listed.subrange(0, listed.len() as int) =~= listed);
}

/// A page shows at most eight posts, and every page up to the last one shows at least one;
/// the pages after the last one are empty.
pub proof fn law_page_sizes(listed: Seq<Post>, page: int)
    requires
        page >= 1,
    ensures
        page_window(listed, page).len() <= POSTS_PER_PAGE,
        page_window(listed, page).len() > 0 <==> page <= page_count(listed.len()),
{
}

/// The post at position `i` of the list is shown on page `i / 8 + 1`, at position `i % 8`.
pub proof fn law_post_on_its_page(listed: Seq<Post>, i: int)
    requires
        0 <= i < listed.len(),
    ensures
        i / 8 + 1 <= page_count(listed.len()),
        page_window(listed, i / 8 + 1).len() > i % 8,
        page_window(listed, i / 8 + 1)[i % 8] == listed[i],
{
}

proof fn lemma_tagged_len(s: Seq<Post>, tag: Seq<char>)
    ensures
        tagged(s, tag).len() <= s.len(),
    decreases s.len(),
{
    if s.len() > 0 {
        lemma_tagged_len(s.drop_last(), tag);
    }
}

proof fn lemma_articles_members(s: Seq<Post>)
    ensures
        forall|i: int| 0 <= i < articles_of(s).len() ==> !(#[trigger] articles_of(s)[i]).is_page,
    decreases s.len(),
{
    if s.len() > 0 {
        lemma_articles_members(s.drop_last());
        let prev = articles_of(s.drop_last());
        assert forall|i: int| 0 <= i < articles_of(s).len() implies !(#[trigger] articles_of(s)[i]).is_page by {
            if i < prev.len() {
                assert(articles_of(s)[i] == prev[i]);
            }
        }
    }
}

proof fn lemma_tagged_members(s: Seq<Post>, tag: Seq<char>)
    ensures
        forall|i: int| 0 <= i < tagged(s, tag).len() ==> {
            &&& has_tag(#[trigger] tagged(s, tag)[i], tag)
            &&& s.contains(tagged(s, tag)[i])
        },
    decreases s.len(),
{
    if s.len() > 0 {
        lemma_tagged_members(s.drop_last(), tag);
        let prev = tagged(s.drop_last(), tag);
        assert forall|i: int| 0 <= i < tagged(s, tag).len() implies {
            &&& has_tag(#[trigger] tagged(s, tag)[i], tag)
            &&& s.contains(tagged(s, tag)[i])
        } by {
            if i < prev.len() {
                assert(tagged(s, tag)[i] == prev[i]);
                let k = choose|k: int| 0 <= k < s.drop_last().len() && s.drop_last()[k] == prev[i];
                assert(s[k] == prev[i]);
            } else {
                assert(s[s.len() - 1] == tagged(s, tag)[i]);
            }
        }
    }
}

/// Every post of a list, with a tag or without, lies on a page within the number of pages
/// that the page reports.
pub proof fn law_listed_posts_within_pages(posts: Seq<Post>, tag: Option<Seq<char>>, i: int)
    requires
        0 <= i < listed_posts(posts, tag).len(),
    ensures
        i / 8 + 1 <= page_count(articles_of(posts).len()),
{
    if let Some(t) = selected_tag(tag) {
        lemma_tagged_len(articles_of(posts), t);
    }
}

/// A list never shows pages, and a list for a tag shows only posts with that tag.
pub proof fn law_listed_posts_are_articles(posts: Seq<Post>, tag: Option<Seq<char>>, i: int)
    requires
        0 <= i < listed_posts(posts, tag).len(),
    ensures
        !listed_posts(posts, tag)[i].is_page,
        selected_tag(tag) matches Some(t) ==> has_tag(listed_posts(posts, tag)[i], t),
{
    lemma_articles_members(posts);
    if let Some(t) = selected_tag(tag) {
        lemma_tagged_members(articles_of(posts), t);
        let k = choose|k: int| 0 <= k < articles_of(posts).len() && articles_of(posts)[k] == listed_posts(posts, tag)[i];
        assert(!articles_of(posts)[k].is_page);
    }
}

/// Looking a post up by id finds one with that id, the first, and finds none only when no
/// post has that id.
pub proof fn law_found_post_has_id(s: Seq<Post>, id: Seq<char>)
    ensures
        first_with_id(s, id) matches Some(p) ==> {
            &&& p.id@ == id
            &&& exists|i: int| 0 <= i < s.len() && s[i] == p && forall|j: int| 0 <= j < i ==> s[j].id@ != id
        },
        first_with_id(s, id) is None ==> forall|i: int| 0 <= i < s.len() ==> s[i].id@ != id,
    decreases s.len(),
{
    if s.len() > 0 && s[0].id@ != id {
        law_found_post_has_id(s.drop_first(), id);
        if let Some(p) = first_with_id(s, id) {
            let i = choose|i: int| 0 <= i < s.drop_first().len() && s.drop_first()[i] == p && forall|j: int| 0 <= j < i ==> s.drop_first()[j].id@ != id;
            assert(s[i + 1] == p);
            assert forall|j: int| 0 <= j < i + 1 implies s[j].id@ != id by {
                if j > 0 {
                    assert(s[j] == s.drop_first()[j - 1]);
                }
            }
        } else {
            assert forall|i: int| 0 <= i < s.len() implies s[i].id@ != id by {
                if i > 0 {
                    assert(s[i] == s.drop_first()[i - 1]);
                }
            }
        }
    }
}

proof fn lemma_tagged_has(s: Seq<Post>, tag: Seq<char>, i: int)
    requires
        0 <= i < s.len(),
        exists|j: int| 0 <= j < s[i].tags@.len() && s[i].tags@[j]@ == tag,
    ensures
        tagged(s, tag).contains(s[i]),
    decreases s.len(),
{
    if i < s.len() - 1 {
        assert(s.drop_last()[i] == s[i]);
        lemma_tagged_has(s.drop_last(), tag, i);
        let k = choose|k: int| 0 <= k < tagged(s.drop_last(), tag).len() && tagged(s.drop_last(), tag)[k] == s[i];
        assert(tagged(s, tag)[k] == s[i]);
    } else {
        assert(has_tag(s[i], tag));
        assert(tagged(s, tag)[tagged(s.drop_last(), tag).len() as int] == s[i]);
    }
}

proof fn lemma_articles_has(s: Seq<Post>, i: int)
    requires
        0 <= i < s.len(),
        !s[i].is_page,
    ensures
        exists|k: int| 0 <= k < articles_of(s).len() && articles_of(s)[k] == s[i],
    decreases s.len(),
{
    if i < s.len() - 1 {
        lemma_articles_has(s.drop_last(), i);
        let k = choose|k: int| 0 <= k < articles_of(s.drop_last()).len() && articles_of(s.drop_last())[k] == s[i];
        assert(articles_of(s)[k] == s[i]);
    } else {
        assert(articles_of(s)[articles_of(s.drop_last()).len() as int] == s[i]);
    }
}

/// A list for a tag `t` (not empty, not `index`) shows exactly the posts that are not pages
/// and have `t` among their tags, at whatever position: every such post is listed, and every
/// listed post is one.
pub proof fn law_tag_list_is_posts_with_tag(posts: Seq<Post>, t: Seq<char>, i: int)
    requires
        t.len() > 0,
        t != index_slug(),
        0 <= i < posts.len(),
    ensures
        (!posts[i].is_page && exists|j: int| 0 <= j < posts[i].tags@.len() && posts[i].tags@[j]@ == t)
            ==> listed_posts(posts, Some(t)).contains(posts[i]),
        forall|k: int| 0 <= k < listed_posts(posts, Some(t)).len() ==> {
            let p = #[trigger] listed_posts(posts, Some(t))[k];
            &&& !p.is_page
            &&& exists|j: int| 0 <= j < p.tags@.len() && p.tags@[j]@ == t
            &&& posts.contains(p)
        },
{
    let arts = articles_of(posts);
    if !posts[i].is_page && exists|j: int| 0 <= j < posts[i].tags@.len() && posts[i].tags@[j]@ == t {
        lemma_articles_has(posts, i);
        let k = choose|k: int| 0 <= k < arts.len() && arts[k] == posts[i];
        lemma_tagged_has(arts, t, k);
    }
    lemma_tagged_members(arts, t);
    lemma_articles_members(posts);
    lemma_articles_in(posts);
    assert forall|k: int| 0 <= k < listed_posts(posts, Some(t)).len() implies {
        let p = #[trigger] listed_posts(posts, Some(t))[k];
        &&& !p.is_page
        &&& exists|j: int| 0 <= j < p.tags@.len() && p.tags@[j]@ == t
        &&& posts.contains(p)
    } by {
        let p = listed_posts(posts, Some(t))[k];
        assert(has_tag(p, t));
        let m = choose|m: int| 0 <= m < arts.len() && arts[m] == p;
        assert(!arts[m].is_page);
    }
}

proof fn lemma_articles_in(s: Seq<Post>)
    ensures
        forall|k: int| 0 <= k < articles_of(s).len() ==> s.contains(#[trigger] articles_of(s)[k]),
    decreases s.len(),
{
    if s.len() > 0 {
        lemma_articles_in(s.drop_last());
        let prev = articles_of(s.drop_last());
        assert forall|k: int| 0 <= k < articles_of(s).len() implies s.contains(#[trigger] articles_of(s)[k]) by {
            if k < prev.len() {
                assert(articles_of(s)[k] == prev[k]);
                let m = choose|m: int| 0 <= m < s.drop_last().len() && s.drop_last()[m] == prev[k];
                assert(s[m] == prev[k]);
            } else {
                assert(s[s.len() - 1] == articles_of(s)[k]);
            }
        }
    }
}

} // verus!
