use vstd::prelude::*;
use crate::blog::Blog;
use crate::helpers::{allowed_extension, is_ext_allowed};
use crate::pagination::articles_of;
use crate::post::{post_url, texts, Post};
use crate::text::push_char;

verus! {

/// The posts that are not pages, in order.
pub fn articles(posts: Vec<Post>) -> (r: Vec<Post>)
    ensures
        r@ == articles_of(posts@),
{
    let ghost orig = posts@;
    let mut rest = posts;
    let mut kept: Vec<Post> = Vec::new();
    let ghost mut k: int = 0;
    assert(orig.skip(0) =~= rest@);
    assert(orig.take(0) =~= Seq::<Post>::empty());
    while rest.len() > 0
        invariant
            0 <= k <= orig.len(),
            k + rest.len() == orig.len(),
            rest@ == orig.skip(k),
            kept@ == articles_of(orig.take(k)),
        decreases rest.len(),
    {
        let p = rest.remove(0);
        assert(orig.take(k + 1).drop_last() =~= orig.take(k));
        assert(orig.take(k + 1).last() == p);
        assert(rest@ =~= orig.skip(k + 1));
        if !p.is_page {
            kept.push(p);
        }
        proof {
            k = k + 1;
        }
    }
    assert(orig.take(k) =~= orig);
    kept
}

/// The first line of the robots file.
pub open spec fn robots_header() -> Seq<char> {
    "User-Agent: *\n"@
}

/// One `Disallow` line for each post hidden from crawlers, in order.
pub open spec fn disallow_lines(posts: Seq<Post>) -> Seq<char>
    decreases posts.len(),
{
    if posts.len() == 0 {
        Seq::empty()
    } else if posts.last().hide_from_robots {
        disallow_lines(posts.drop_last()) + "Disallow: "@ + post_url(posts.last().id@, posts.last().slug@)
            + seq!['\n']
    } else {
        disallow_lines(posts.drop_last())
    }
}

/// The robots file: every crawler is told to stay away from the posts hidden from robots.
pub fn robots_txt(posts: &Vec<Post>) -> (robots_content: String)
    ensures
        robots_content@ == robots_header() + disallow_lines(posts@),
{
    let mut robots_content = "User-Agent: *\n".to_owned();
    let mut i: usize = 0;
    while i < posts.len()
        invariant
            i <= posts.len(),
            robots_content@ == robots_header() + disallow_lines(posts@.take(i as int)),
        decreases posts.len() - i,
    {
        assert(posts@.take(i + 1).drop_last() =~= posts@.take(i as int));
        let post = &posts[i];
        if post.hide_from_robots {
            let ghost before = robots_content@;
            robots_content.append("Disallow: ");
            robots_content.append("/post/");
            proof {
                reveal_strlit("/post/");
            }
            robots_content.append(post.id.as_str());
            push_char(&mut robots_content, '/');
            robots_content.append(post.slug.as_str());
            push_char(&mut robots_content, '\n');
            assert(robots_content@ =~= before + "Disallow: "@ + post_url(post.id@, post.slug@) + seq!['\n']);
        }
        i = i + 1;
    }
    assert(posts@.take(posts.len() as int) =~= posts@);
    robots_content
}

/// Whether a request's token is the blog's token, which unlocks editing.
pub open spec fn token_unlocks(blog_token: Seq<char>, token: Option<Seq<char>>) -> bool {
    token matches Some(t) && t == blog_token
}

/// Whether a request carries the blog's token, which turns on editing.
pub fn is_edit_mode(blog_context: &Blog, token: Option<String>) -> (edit: bool)
    ensures
        edit == token_unlocks(blog_context.token@, crate::pagination::optional_text(token)),
{
    match token {
        Some(inner) => inner == blog_context.token,
        None => false,
    }
}

/// The address of each uploaded file whose name has an allowed extension, in order:
/// the blog's address, `/uploads/` and the name.
pub open spec fn media_links(blog_url: Seq<char>, names: Seq<Seq<char>>) -> Seq<Seq<char>>
    decreases names.len(),
{
    if names.len() == 0 {
        Seq::empty()
    } else if allowed_extension(names.last()) {
        media_links(blog_url, names.drop_last()).push(blog_url + "/uploads/"@ + names.last())
    } else {
        media_links(blog_url, names.drop_last())
    }
}

/// The addresses of the uploaded files that the media page lists.
pub fn media_urls(blog_url: &String, names: Vec<String>) -> (urls: Vec<String>)
    ensures
        texts(urls@) == media_links(blog_url@, texts(names@)),
{
    let ghost all = texts(names@);
    let mut urls: Vec<String> = Vec::new();
    let mut i: usize = 0;
    while i < names.len()
        invariant
            i <= names.len(),
            all == texts(names@),
            texts(urls@) == media_links(blog_url@, all.take(i as int)),
        decreases names.len() - i,
    {
        assert(all.take(i + 1).drop_last() =~= all.take(i as int));
        assert(all.take(i + 1).last() == names[i as int]@);
        let name = names[i].clone();
        if is_ext_allowed(name) {
            let mut url = blog_url.clone();
            url.append("/uploads/");
            url.append(names[i].as_str());
            let ghost before = texts(urls@);
            urls.push(url);
            assert(texts(urls@) =~= before.push(blog_url@ + "/uploads/"@ + names[i as int]@));
        }
        i = i + 1;
    }
    assert(all.take(names.len() as int) =~= all);
    urls
}

/// The widest an uploaded image is kept.
pub const MAX_IMAGE_WIDTH: u32 = 1024;

/// The size an uploaded image of `width` by `height` is scaled to, if it is too wide:
/// 1024 wide, its height divided by how many times 1024 fits into its width.
pub open spec fn scaled_size(width: u32, height: u32) -> Option<(u32, u32)> {
    if width > 1024 {
        Some((1024u32, (height / (width / 1024)) as u32))
    } else {
        None
    }
}

/// The size an uploaded image is scaled to, if it is too wide.
pub fn resize_target(width: u32, height: u32) -> (size: Option<(u32, u32)>)
    ensures
        size == scaled_size(width, height),
{
    if width > MAX_IMAGE_WIDTH {
        let new_x = MAX_IMAGE_WIDTH;
        let new_y = height / (width / new_x);
        Some((new_x, new_y))
    } else {
        None
    }
}

/// The name of the thumbnail of an uploaded file: `thumb_` and the file's name.
pub fn thumbnail_name(name: &String) -> (thumb: String)
    ensures
        thumb@ == crate::helpers::thumb_prefix() + name@,
{
    let mut thumb = "thumb_".to_owned();
    proof {
        reveal_strlit("thumb_");
    }
    thumb.append(name.as_str());
    thumb
}

/// The folder of uploaded files.
pub open spec fn uploads_folder() -> Seq<char> {
    seq!['.', '/', 'u', 'p', 'l', 'o', 'a', 'd', 's']
}

/// Where an uploaded file named `name` is stored.
pub fn upload_path(name: &String) -> (path: String)
    ensures
        path@ == crate::pagination::joined_path(uploads_folder(), name@),
{
    let folder = "./uploads".to_owned();
    proof {
        reveal_strlit("./uploads");
        assert(folder@ =~= uploads_folder());
    }
    crate::pagination::path_join(&folder, name)
}

/// Whether an upload is taken: the token is the blog's and the name has an allowed
/// extension.
pub fn accepts_upload(blog_context: &Blog, token: &String, name: &String) -> (accepted: bool)
    ensures
        accepted == (token@ == blog_context.token@ && allowed_extension(name@)),
{
    *token == blog_context.token && is_ext_allowed(name.clone())
}

/// Whether a request to delete an uploaded file is taken: its token is the blog's.
pub fn accepts_deletion(blog_context: &Blog, token: &String) -> (accepted: bool)
    ensures
        accepted == (token@ == blog_context.token@),
{
    *token == blog_context.token
}

/// The post that the post page shows for `id`: the first among the posts of the first
/// index page with that id, else the first such page.
pub fn find_post(items: Vec<Post>, pages: Vec<Post>, id: String) -> (found: Option<Post>)
    ensures
        found == (match crate::pagination::first_with_id(items@, id@) {
            Some(p) => Some(p),
            None => crate::pagination::first_with_id(pages@, id@),
        }),
{
    let id_copy = id.clone();
    match crate::pagination::Pagination::get_post(items, id) {
        Some(p) => Some(p),
        None => crate::pagination::Pagination::get_post(pages, id_copy),
    }
}

/// The id under which an editor asks for a new post.
pub open spec fn new_post_id() -> Seq<char> {
    seq!['n', 'e', 'w']
}

/// Whether the post page looks up an existing post: unless an editor asks for a new one.
pub fn shows_existing_post(id: &String, is_edit_mode: bool) -> (existing: bool)
    ensures
        existing == (id@ != new_post_id() || !is_edit_mode),
{
    let id_chars = crate::text::to_chars(id.as_str());
    let new_id = vec!['n', 'e', 'w'];
    !crate::text::chars_eq(&id_chars, &new_id) || !is_edit_mode
}

/// The text a new post starts with.
pub open spec fn draft_text() -> Seq<char> {
    "Lorem Ipsum\n1970-01-01 00:00\n:post\n# Lorem Ipsum\n"@
}

/// The post that an editor starts from, to be stored at `full_path`.
pub fn draft_post(full_path: String) -> (post: Post)
    ensures
        post@.id == crate::helpers::path_id(full_path@),
        post@.slug == new_post_id(),
        post@.date == 1,
        post@.title == new_post_id(),
        post@.content.len() == 0,
        !post@.is_page,
        post@.tags.len() == 0,
        !post@.hide_from_robots,
        post@.image.len() == 0,
        post@.path == full_path@,
        post@.raw_content == draft_text(),
{
    let id = crate::helpers::post_id(full_path.as_str());
    let slug = "new".to_owned();
    let title = "new".to_owned();
    proof {
        reveal_strlit("new");
        assert(slug@ =~= new_post_id());
    }
    let tags: Vec<String> = Vec::new();
    let post = Post {
        id: id,
        slug: slug,
        date: 1,
        title: title,
        content: String::new(),
        is_page: false,
        tags: tags,
        hide_from_robots: false,
        image: String::new(),
        path: full_path,
        raw_content: "Lorem Ipsum\n1970-01-01 00:00\n:post\n# Lorem Ipsum\n".to_owned(),
    };
    assert(post@.tags =~= Seq::<Seq<char>>::empty());
    post
}

/// What the editor's form asks for.
pub enum EditAction {
    /// The token is not the blog's: nothing is done.
    Refuse,
    /// The post file is deleted.
    Delete,
    /// The post file is written with the submitted text.
    Save,
}

/// The submit value that deletes a post.
pub open spec fn delete_submit() -> Seq<char> {
    seq!['d', 'e', 'l', 'e', 't', 'e']
}

/// What the editor's form asks for, given its token and its submit value.
pub fn edit_action(blog_context: &Blog, token: &String, submit: &String) -> (action: EditAction)
    ensures
        action == (if token@ != blog_context.token@ {
            EditAction::Refuse
        } else if submit@ == delete_submit() {
            EditAction::Delete
        } else {
            EditAction::Save
        }),
{
    if *token != blog_context.token {
        return EditAction::Refuse;
    }
    let submit_chars = crate::text::to_chars(submit.as_str());
    let delete = vec!['d', 'e', 'l', 'e', 't', 'e'];
    if crate::text::chars_eq(&submit_chars, &delete) {
        EditAction::Delete
    } else {
        EditAction::Save
    }
}

/// Where an editor is sent after a post was deleted: the index with the token.
pub fn index_with_token(token: &String) -> (target: String)
    ensures
        target@ == "/?token="@ + token@,
{
    let mut target = "/?token=".to_owned();
    target.append(token.as_str());
    target
}

/// Where an editor is sent after a file was deleted: the media page with the token.
pub fn media_with_token(token: &String) -> (target: String)
    ensures
        target@ == "/media?token="@ + token@,
{
    let mut target = "/media?token=".to_owned();
    target.append(token.as_str());
    target
}

/// The line that keeps crawlers away from a post: `Disallow: /post/{id}/{slug}` and a line
/// feed.
pub open spec fn disallow_line(p: Post) -> Seq<char> {
    "Disallow: /post/"@ + p.id@ + "/"@ + p.slug@ + "\n"@
}

proof fn lemma_disallow_line(p: Post)
    ensures
        "Disallow: "@ + post_url(p.id@, p.slug@) + seq!['\n'] == disallow_line(p),
{
    reveal_strlit("Disallow: ");
    reveal_strlit("Disallow: /post/");
    reveal_strlit("/");
    reveal_strlit("\n");
    assert("Disallow: "@ + post_url(p.id@, p.slug@) + seq!['\n'] =~= disallow_line(p));
}

proof fn lemma_disallow_lines_hold(posts: Seq<Post>, i: int)
    requires
        0 <= i < posts.len(),
        posts[i].hide_from_robots,
    ensures
        exists|off: int| 0 <= off && off + disallow_line(posts[i]).len() <= disallow_lines(posts).len()
            && #[trigger] disallow_lines(posts).subrange(off, off + disallow_line(posts[i]).len()) == disallow_line(posts[i]),
    decreases posts.len(),
{
    let rest = posts.drop_last();
    let prev = disallow_lines(rest);
    let line = disallow_line(posts[i]);
    if i < posts.len() - 1 {
        lemma_disallow_lines_hold(rest, i);
        assert(rest[i] == posts[i]);
        let off = choose|off: int| 0 <= off && off + line.len() <= prev.len()
            && #[trigger] prev.subrange(off, off + line.len()) == line;
        if posts.last().hide_from_robots {
            lemma_disallow_line(posts.last());
            assert(disallow_lines(posts) == prev + disallow_line(posts.last()));
        } else {
            assert(disallow_lines(posts) == prev);
        }
        assert(disallow_lines(posts).subrange(off, off + line.len()) =~= prev.subrange(off, off + line.len()));
    } else {
        lemma_disallow_line(posts[i]);
        assert(disallow_lines(posts) == prev + line);
        let off = prev.len() as int;
        assert(disallow_lines(posts).subrange(off, off + line.len()) =~= line);
    }
}

/// Every post hidden from robots, whatever its other fields, gets its `Disallow` line in the
/// robots file, after the header; posts that are not hidden give no line.
pub proof fn law_robots_disallow_every_hidden_post(posts: Seq<Post>, i: int)
    requires
        0 <= i < posts.len(),
    ensures
        posts[i].hide_from_robots ==> exists|off: int| 0 <= off && off + disallow_line(posts[i]).len()
            <= (robots_header() + disallow_lines(posts)).len() && #[trigger] (robots_header()
            + disallow_lines(posts)).subrange(off, off + disallow_line(posts[i]).len()) == disallow_line(posts[i]),
        !posts.last().hide_from_robots ==> disallow_lines(posts) == disallow_lines(posts.drop_last()),
{
    if posts[i].hide_from_robots {
        lemma_disallow_lines_hold(posts, i);
        let line = disallow_line(posts[i]);
        let d = disallow_lines(posts);
        let h = robots_header();
        let off = choose|off: int| 0 <= off && off + line.len() <= d.len()
            && #[trigger] d.subrange(off, off + line.len()) == line;
        assert((h + d).subrange(h.len() + off, h.len() + off + line.len()) =~= d.subrange(off, off + line.len()));
    }
}

} // verus!
