//! From the pages of the mirrored archive to authors, works and links.

use vstd::prelude::*;
use vstd::string::*;
use crate::chars::{
    after_prefix, before_first, begins_with, chars_of, contains, cut, ends_with, find, find_from,
    finishes_with, first_index_of, includes, last_index_of, lemma_ends_with_in_tail,
    lemma_first_in_tail, lemma_first_occurrence_unique, lemma_last_occurrence_unique,
    lemma_none_in_tail, matches_at, occurs_at, rfind, segment_before, starts_with, strip_prefix,
    trim, trimmed,
};
use crate::locator::{dir_of, join, join_path, parent_dir};
use crate::models::{opt_view, Author, AuthorView, Work, WorkLink, WorkLinkView, WorkView};
use crate::page::{
    download_links, download_links_of, hrefs_view, items_view, list_items, list_items_of,
    ListItem, ListItemView,
};

verus! {

/// What stands in `href` between the last `prefix` and the first `suffix`
/// after it.
pub open spec fn id_in_href(href: Seq<char>, prefix: Seq<char>, suffix: Seq<char>) -> Option<
    Seq<char>,
> {
    if !contains(href, prefix) {
        None
    } else {
        let start = last_index_of(href, prefix) + prefix.len();
        let rest = href.subrange(start, href.len() as int);
        if !contains(rest, suffix) {
            None
        } else {
            Some(rest.subrange(0, first_index_of(rest, suffix)))
        }
    }
}

/// Reads an identifier out of a link: `parse_id_from_href("person1257.html",
/// "person", ".html")` is `1257`.
pub fn parse_id_from_href(href: &str, prefix: &str, suffix: &str) -> (r: Option<String>)
    ensures
        match r {
            Some(id) => id_in_href(href@, prefix@, suffix@) == Some(id@),
            None => id_in_href(href@, prefix@, suffix@) is None,
        },
{
    let h = chars_of(href);
    let p = chars_of(prefix);
    let x = chars_of(suffix);
    match rfind(&h, &p) {
        None => None,
        Some(pos) => {
            let start = pos + p.len();
            let ghost rest = h@.subrange(start as int, h@.len() as int);
            match find_from(&h, &x, start) {
                None => {
                    proof {
                        lemma_none_in_tail(h@, x@, start as int);
                    }
                    None
                },
                Some(end) => {
                    proof {
                        lemma_first_in_tail(h@, x@, start as int, end as int);
                        lemma_first_occurrence_unique(rest, x@, end - start);
                        assert(rest.subrange(0, end - start) =~= h@.subrange(
                            start as int,
                            end as int,
                        ));
                    }
                    Some(cut(href, start, end))
                },
            }
        },
    }
}

/// The two things a card's download table is searched for.
#[derive(Debug, Clone, Copy, PartialEq, Eq)]
pub enum LinkKind {
    /// The archive that holds the text.
    Archive,
    /// The page on which the work can be read.
    Page,
}

/// A link of the download table counts only if it leads into the card's
/// `files` directory.
pub open spec fn is_candidate(href: Option<Seq<char>>) -> bool {
    href is Some && starts_with(href.unwrap(), "./files"@)
}

/// An archive of text: a `.zip` that is not the TTZ variant.
pub open spec fn is_archive_link(link: Seq<char>) -> bool {
    &&& ends_with(link, ".zip"@)
    &&& !contains(link, "_ttz.zip"@)
    &&& !ends_with(link, "ttz.zip"@)
}

/// A page to read.
pub open spec fn is_page_link(link: Seq<char>) -> bool {
    ends_with(link, ".html"@) || ends_with(link, ".htm"@)
}

/// `href` is a candidate of the kind `kind`.
pub open spec fn wanted(href: Option<Seq<char>>, kind: LinkKind) -> bool {
    is_candidate(href) && match kind {
        LinkKind::Archive => is_archive_link(href.unwrap()),
        LinkKind::Page => is_page_link(href.unwrap()),
    }
}

/// The first link of the kind `kind` among `hrefs`, in their order.
pub open spec fn first_wanted(hrefs: Seq<Option<Seq<char>>>, kind: LinkKind) -> Option<Seq<char>>
    decreases hrefs.len(),
{
    if hrefs.len() == 0 {
        None
    } else if wanted(hrefs[0], kind) {
        hrefs[0]
    } else {
        first_wanted(hrefs.drop_first(), kind)
    }
}

/// Where a card's link lies in the mirror: in the card's directory, without
/// the link's leading `./`.
pub open spec fn local_path(work_page_path: Seq<char>, link: Seq<char>) -> Seq<char> {
    join(dir_of(work_page_path), link.skip(2))
}

/// The public address of a place in the mirror: the host of the archive,
/// and what follows the mirror's directory name in the path. A path that
/// does not name the mirror stays as it is.
pub open spec fn public_url(path: Seq<char>) -> Seq<char> {
    if contains(path, "aozorabunko"@) {
        "https://www.aozora.gr.jp"@ + path.skip(
            first_index_of(path, "aozorabunko"@) + "aozorabunko"@.len(),
        )
    } else {
        path
    }
}

/// The links of the card at `work_page_path` whose download table holds
/// `hrefs`: none without an archive; the page to read is optional.
pub open spec fn links_on_card(
    work_page_path: Seq<char>,
    hrefs: Seq<Option<Seq<char>>>,
) -> Option<WorkLinkView> {
    match first_wanted(hrefs, LinkKind::Archive) {
        None => None,
        Some(archive) => Some(
            WorkLinkView {
                zip_path: local_path(work_page_path, archive),
                html_link: match first_wanted(hrefs, LinkKind::Page) {
                    None => None,
                    Some(page) => Some(public_url(local_path(work_page_path, page))),
                },
            },
        ),
    }
}

/// The view of an optional link.
pub open spec fn link_view(link: Option<WorkLink>) -> Option<WorkLinkView> {
    match link {
        Some(l) => Some(l@),
        None => None,
    }
}

/// Before the first wanted link there is none.
pub proof fn lemma_first_wanted_at(hrefs: Seq<Option<Seq<char>>>, kind: LinkKind, i: int)
    requires
        0 <= i <= hrefs.len(),
        forall|j: int| 0 <= j < i ==> !wanted(#[trigger] hrefs[j], kind),
    ensures
        i < hrefs.len() && wanted(hrefs[i], kind) ==> first_wanted(hrefs, kind) == hrefs[i],
        i == hrefs.len() ==> first_wanted(hrefs, kind) is None,
    decreases i,
{
    if i > 0 {
        let rest = hrefs.drop_first();
        assert(!wanted(hrefs[0], kind));
        assert forall|j: int| 0 <= j < i - 1 implies !wanted(#[trigger] rest[j], kind) by {
            assert(rest[j] == hrefs[j + 1]);
        }
        lemma_first_wanted_at(rest, kind, i - 1);
        if i < hrefs.len() {
            assert(rest[i - 1] == hrefs[i]);
        }
    }
}

/// The first wanted link is a wanted link.
pub proof fn lemma_first_wanted_is_wanted(hrefs: Seq<Option<Seq<char>>>, kind: LinkKind)
    ensures
        first_wanted(hrefs, kind) is Some ==> wanted(first_wanted(hrefs, kind), kind),
    decreases hrefs.len(),
{
    if hrefs.len() > 0 && !wanted(hrefs[0], kind) {
        lemma_first_wanted_is_wanted(hrefs.drop_first(), kind);
    }
}

/// The archive of a card is a `.zip` in the mirror, and never the TTZ
/// variant, whatever the card's download table holds.
pub proof fn lemma_links_are_well_formed(work_page_path: Seq<char>, hrefs: Seq<Option<Seq<char>>>)
    ensures
        links_on_card(work_page_path, hrefs) is Some ==> links_on_card(
            work_page_path,
            hrefs,
        ).unwrap().well_formed(),
{
    let kind = LinkKind::Archive;
    lemma_first_wanted_is_wanted(hrefs, kind);
    if let Some(link) = first_wanted(hrefs, kind) {
        reveal_strlit("./files");
        reveal_strlit(".zip");
        reveal_strlit("ttz.zip");
        reveal_strlit("/");
        let n = link.len() as int;
        let rel = link.skip(2);
        let dir = dir_of(work_page_path);
        let path = join(dir, rel);
        assert(link.subrange(0, 7) == "./files"@);
        assert forall|k: int| 0 <= k < 7 implies link[k] == "./files"@[k] by {
            assert(link.subrange(0, 7)[k] == link[k]);
        }
        let end = link.subrange(n - 4, n);
        assert(end == ".zip"@);
        assert forall|k: int| 0 <= k < 4 implies link[n - 4 + k] == ".zip"@[k] by {
            assert(end[k] == link[n - 4 + k]);
        }
        // `./files` and `.zip` do not overlap
        assert(end[0] == link[n - 4]);
        assert(link[n - 4] == '.');
        assert(n >= 11);
        assert(rel[0] == link[2]);
        assert(!starts_with(rel, "/"@)) by {
            if starts_with(rel, "/"@) {
                assert(rel.subrange(0, 1)[0] == rel[0]);
            }
        }
        assert(rel.subrange(rel.len() - 4, rel.len() as int) =~= end);
        assert(rel.subrange(rel.len() - 7, rel.len() as int) =~= link.subrange(n - 7, n));
        let head: Seq<char> = if dir.len() == 0 {
            Seq::empty()
        } else if ends_with(dir, "/"@) {
            dir
        } else {
            dir + "/"@
        };
        assert(path =~= head + rel);
        lemma_ends_with_in_tail(head, rel, ".zip"@);
        lemma_ends_with_in_tail(head, rel, "ttz.zip"@);
    }
}

/// Whether `href` is a candidate of the kind `kind`.
pub fn is_wanted(href: &Option<String>, kind: LinkKind) -> (r: bool)
    ensures
        r == wanted(opt_view(*href), kind),
{
    match href {
        None => false,
        Some(link) => {
            let l = chars_of(link.as_str());
            if !begins_with(&l, &chars_of("./files")) {
                return false;
            }
            match kind {
                LinkKind::Archive => finishes_with(&l, &chars_of(".zip")) && !includes(
                    &l,
                    &chars_of("_ttz.zip"),
                ) && !finishes_with(&l, &chars_of("ttz.zip")),
                LinkKind::Page => finishes_with(&l, &chars_of(".html")) || finishes_with(
                    &l,
                    &chars_of(".htm"),
                ),
            }
        },
    }
}

/// The place of the first link of the kind `kind` among `hrefs`.
pub fn find_wanted(hrefs: &Vec<Option<String>>, kind: LinkKind) -> (r: Option<usize>)
    ensures
        match r {
            Some(i) => i < hrefs.len() && wanted(hrefs_view(hrefs@)[i as int], kind)
                && first_wanted(hrefs_view(hrefs@), kind) == hrefs_view(hrefs@)[i as int],
            None => first_wanted(hrefs_view(hrefs@), kind) is None,
        },
{
    let ghost views = hrefs_view(hrefs@);
    let mut i: usize = 0;
    while i < hrefs.len()
        invariant
            i <= hrefs.len(),
            views == hrefs_view(hrefs@),
            forall|j: int| 0 <= j < i ==> !wanted(#[trigger] views[j], kind),
        decreases hrefs.len() - i,
    {
        if is_wanted(&hrefs[i], kind) {
            proof {
                lemma_first_wanted_at(views, kind, i as int);
            }
            return Some(i);
        }
        i += 1;
    }
    proof {
        lemma_first_wanted_at(views, kind, i as int);
    }
    None
}

/// Where the link `link` of the card at `work_page_path` lies in the mirror.
fn locate(work_page_path: &str, link: &str) -> (out: String)
    requires
        starts_with(link@, "./files"@),
    ensures
        out@ == local_path(work_page_path@, link@),
{
    proof {
        reveal_strlit("./files");
    }
    let n = link.unicode_len();
    let rel = cut(link, 2, n);
    assert(rel@ =~= link@.skip(2));
    let dir = parent_dir(work_page_path);
    join_path(dir.as_str(), rel.as_str())
}

/// The public address of the place `path` in the mirror.
pub fn public_address(path: &str) -> (out: String)
    ensures
        out@ == public_url(path@),
{
    let h = chars_of(path);
    let name = chars_of("aozorabunko");
    match find(&h, &name) {
        None => String::from_str(path),
        Some(i) => {
            let rest = cut(path, i + name.len(), h.len());
            assert(rest@ =~= path@.skip(i + name@.len()));
            let mut out = String::from_str("https://www.aozora.gr.jp");
            out.append(rest.as_str());
            out
        },
    }
}

/// Picks the archive of a work, and the page on which it can be read, out of
/// the links `hrefs` of its card's download table. The archive is the first
/// link into `./files` that ends in `.zip` and is no TTZ archive; without one
/// there is no result. The page is the first link into `./files` that ends in
/// `.html` or `.htm`, given as a public address.
pub fn resolve_links(work_page_path: &str, hrefs: &Vec<Option<String>>) -> (r: Option<WorkLink>)
    ensures
        link_view(r) == links_on_card(work_page_path@, hrefs_view(hrefs@)),
        r is Some ==> r.unwrap()@.well_formed(),
{
    proof {
        lemma_links_are_well_formed(work_page_path@, hrefs_view(hrefs@));
    }
    let zip_path = match find_wanted(hrefs, LinkKind::Archive) {
        None => {
            return None;
        },
        Some(i) => match &hrefs[i] {
            Some(link) => locate(work_page_path, link.as_str()),
            None => {
                return None;
            },
        },
    };
    let html_link = match find_wanted(hrefs, LinkKind::Page) {
        None => None,
        Some(i) => match &hrefs[i] {
            Some(link) => {
                let path = locate(work_page_path, link.as_str());
                Some(public_address(path.as_str()))
            },
            None => None,
        },
    };
    Some(WorkLink { zip_path, html_link })
}

/// The links of the work whose card, at `work_page_path`, reads `page`: see
/// `resolve_links`, on the links of the first download table of the page.
/// A page without such a table gives nothing.
pub fn extract_links(work_page_path: &str, page: &str) -> (r: Option<WorkLink>)
    ensures
        link_view(r) == match download_links_of(page@) {
            Some(hrefs) => links_on_card(work_page_path@, hrefs),
            None => None,
        },
        r is Some ==> r.unwrap()@.well_formed(),
{
    match download_links(page) {
        None => None,
        Some(hrefs) => resolve_links(work_page_path, &hrefs),
    }
}

/// An entry of the author index is listed unless it carries the mark of an
/// author whose works are still under copyright.
pub open spec fn is_public_domain(markup: Seq<char>) -> bool {
    !contains(markup, "著作権存続"@)
}

/// The `href` of an entry's link; empty where the link has none.
pub open spec fn href_of(href: Option<Seq<char>>) -> Seq<char> {
    match href {
        Some(h) => h,
        None => Seq::empty(),
    }
}

/// The author that an entry of the index stands for, with pages in `dir`:
/// none where the entry is marked as under copyright, has no link, or its
/// link names no `person<id>.html`.
pub open spec fn author_of_item(item: ListItemView, dir: Seq<char>) -> Option<AuthorView> {
    if !is_public_domain(item.markup) || item.anchor is None {
        None
    } else {
        let anchor = item.anchor.unwrap();
        match id_in_href(href_of(anchor.href), "person"@, ".html"@) {
            None => None,
            Some(id) => Some(
                AuthorView {
                    id,
                    name: trimmed(anchor.text),
                    page_path: join(dir, "person"@ + id + ".html"@),
                },
            ),
        }
    }
}

/// One of `authors` has the identifier `id`.
pub open spec fn has_id(authors: Seq<AuthorView>, id: Seq<char>) -> bool {
    exists|i: int| 0 <= i < authors.len() && (#[trigger] authors[i]).id == id
}

/// No two of `authors` share an identifier.
pub open spec fn ids_differ(authors: Seq<AuthorView>) -> bool {
    forall|i: int, j: int|
        0 <= i < j < authors.len() ==> (#[trigger] authors[i]).id != (#[trigger] authors[j]).id
}

/// The authors that the entries `items` stand for, in their order. Of
/// entries with one identifier the first counts.
pub open spec fn authors_of(items: Seq<ListItemView>, dir: Seq<char>) -> Seq<AuthorView>
    decreases items.len(),
{
    if items.len() == 0 {
        Seq::empty()
    } else {
        let before = authors_of(items.drop_last(), dir);
        match author_of_item(items.last(), dir) {
            Some(a) => if has_id(before, a.id) {
                before
            } else {
                before.push(a)
            },
            None => before,
        }
    }
}

/// Every author is found once: no two authors of a list share an identifier.
pub proof fn lemma_author_ids_differ(items: Seq<ListItemView>, dir: Seq<char>)
    ensures
        ids_differ(authors_of(items, dir)),
    decreases items.len(),
{
    if items.len() > 0 {
        lemma_author_ids_differ(items.drop_last(), dir);
    }
}

/// The views of a run of authors.
pub open spec fn authors_view(authors: Seq<Author>) -> Seq<AuthorView> {
    authors.map_values(|a: Author| a@)
}

/// The author that one entry of the index stands for.
pub fn author_in(item: &ListItem, dir: &str) -> (r: Option<Author>)
    ensures
        match r {
            Some(a) => author_of_item(item@, dir@) == Some(a@),
            None => author_of_item(item@, dir@) is None,
        },
{
    if includes(&chars_of(item.markup.as_str()), &chars_of("著作権存続")) {
        return None;
    }
    match &item.anchor {
        None => None,
        Some(anchor) => {
            let href: &str = match &anchor.href {
                Some(h) => h.as_str(),
                None => "",
            };
            proof {
                reveal_strlit("");
                assert(href@ =~= href_of(opt_view(anchor.href)));
            }
            match parse_id_from_href(href, "person", ".html") {
                None => None,
                Some(id) => {
                    let mut file = String::from_str("person");
                    file.append(id.as_str());
                    file.append(".html");
                    let page_path = join_path(dir, file.as_str());
                    let name = trim(anchor.text.as_str());
                    Some(Author { id, name, page_path })
                },
            }
        },
    }
}

/// Whether one of `authors` has the identifier `id`.
pub fn knows(authors: &Vec<Author>, id: &str) -> (r: bool)
    ensures
        r == has_id(authors_view(authors@), id@),
{
    let ghost views = authors_view(authors@);
    let wanted = chars_of(id);
    let mut i: usize = 0;
    while i < authors.len()
        invariant
            i <= authors.len(),
            views == authors_view(authors@),
            wanted@ == id@,
            forall|j: int| 0 <= j < i ==> (#[trigger] views[j]).id != id@,
        decreases authors.len() - i,
    {
        let other = chars_of(authors[i].id.as_str());
        if other.len() == wanted.len() && matches_at(&other, &wanted, 0) {
            assert(other@.subrange(0, other@.len() as int) =~= other@);
            assert(views[i as int].id == id@);
            return true;
        }
        proof {
            if views[i as int].id == id@ {
                assert(other@.subrange(0, other@.len() as int) =~= other@);
            }
        }
        i += 1;
    }
    false
}

/// The authors among the entries `items` of the index, with pages in `dir`.
pub fn authors_among(items: &Vec<ListItem>, dir: &str) -> (out: Vec<Author>)
    ensures
        authors_view(out@) == authors_of(items_view(items@), dir@),
        ids_differ(authors_view(out@)),
{
    let ghost views = items_view(items@);
    let mut out: Vec<Author> = Vec::new();
    let mut i: usize = 0;
    assert(authors_view(out@) =~= authors_of(views.take(0), dir@));
    while i < items.len()
        invariant
            i <= items.len(),
            views == items_view(items@),
            authors_view(out@) == authors_of(views.take(i as int), dir@),
        decreases items.len() - i,
    {
        let ghost before = out@;
        proof {
            assert(views.take(i + 1).drop_last() =~= views.take(i as int));
            assert(views.take(i + 1).last() == items@[i as int]@);
        }
        if let Some(a) = author_in(&items[i], dir) {
            if !knows(&out, a.id.as_str()) {
                out.push(a);
                assert(authors_view(out@) =~= authors_view(before).push(a@));
            }
        }
        i += 1;
    }
    proof {
        assert(views.take(i as int) =~= views);
        lemma_author_ids_differ(views, dir@);
    }
    out
}

/// The authors of the index page `page`, which lies at `author_list_path`:
/// every entry of its ordered lists that links to `person<id>.html` and is
/// not marked as under copyright gives one author, whose page lies beside the
/// index. An author listed twice is given once.
pub fn extract_authors(author_list_path: &str, page: &str) -> (out: Vec<Author>)
    ensures
        authors_view(out@) == authors_of(list_items_of(page@), dir_of(author_list_path@)),
        ids_differ(authors_view(out@)),
{
    let items = list_items(page);
    let dir = parent_dir(author_list_path);
    authors_among(&items, dir.as_str())
}

/// An entry of an author's page is a work of the author's own where it
/// carries a work number and names no other author.
pub open spec fn is_own_work(markup: Seq<char>) -> bool {
    contains(markup, "作品ID"@) && !contains(markup, "著者"@)
}

/// Where the cards of all authors lie, seen from the page of one author: in
/// `cards`, beside the directory of the author pages. There is no such place
/// where the page lies in no directory, or directly under the root.
pub open spec fn cards_dir_of(author_page_path: Seq<char>) -> Seq<char> {
    if dir_of(author_page_path).len() == 0 || dir_of(author_page_path) == "/"@ {
        Seq::empty()
    } else {
        join(dir_of(dir_of(author_page_path)), "cards"@)
    }
}

/// The work that an entry of an author's page stands for, with cards below
/// `cards_dir`: none where the entry is not a work of the author's own, has
/// no link, or its link is not of the form `../cards/<author>/card<id>.html`.
pub open spec fn work_of_item(item: ListItemView, cards_dir: Seq<char>) -> Option<WorkView> {
    if !is_own_work(item.markup) || item.anchor is None {
        None
    } else {
        let anchor = item.anchor.unwrap();
        let href = href_of(anchor.href);
        match (id_in_href(href, "card"@, ".html"@), strip_prefix(href, "../cards/"@)) {
            (Some(id), Some(rest)) => Some(
                WorkView {
                    id,
                    title: trimmed(anchor.text),
                    page_path: join(
                        join(cards_dir, segment_before(rest, "/"@)),
                        "card"@ + id + ".html"@,
                    ),
                },
            ),
            _ => None,
        }
    }
}

/// The works that the entries `items` stand for, in their order.
pub open spec fn works_of(items: Seq<ListItemView>, cards_dir: Seq<char>) -> Seq<WorkView>
    decreases items.len(),
{
    if items.len() == 0 {
        Seq::empty()
    } else {
        let before = works_of(items.drop_last(), cards_dir);
        match work_of_item(items.last(), cards_dir) {
            Some(w) => before.push(w),
            None => before,
        }
    }
}

/// The views of a run of works.
pub open spec fn works_view(works: Seq<Work>) -> Seq<WorkView> {
    works.map_values(|w: Work| w@)
}

/// Where the cards of all authors lie, seen from the page of one author.
pub fn cards_dir(author_page_path: &str) -> (out: String)
    ensures
        out@ == cards_dir_of(author_page_path@),
{
    let dir = parent_dir(author_page_path);
    let d = chars_of(dir.as_str());
    proof {
        reveal_strlit("/");
        if d@.len() == 1 && d@[0] == '/' {
            assert(d@ =~= "/"@);
        }
    }
    if d.len() == 0 || (d.len() == 1 && d[0] == '/') {
        return String::new();
    }
    let above = parent_dir(dir.as_str());
    join_path(above.as_str(), "cards")
}

/// The work that one entry of an author's page stands for.
pub fn work_in(item: &ListItem, cards_dir: &str) -> (r: Option<Work>)
    ensures
        match r {
            Some(w) => work_of_item(item@, cards_dir@) == Some(w@),
            None => work_of_item(item@, cards_dir@) is None,
        },
{
    let markup = chars_of(item.markup.as_str());
    if !includes(&markup, &chars_of("作品ID")) || includes(&markup, &chars_of("著者")) {
        return None;
    }
    match &item.anchor {
        None => None,
        Some(anchor) => {
            let href: &str = match &anchor.href {
                Some(h) => h.as_str(),
                None => "",
            };
            proof {
                reveal_strlit("");
                assert(href@ =~= href_of(opt_view(anchor.href)));
            }
            match (parse_id_from_href(href, "card", ".html"), after_prefix(href, "../cards/")) {
                (Some(id), Some(rest)) => {
                    let owner = before_first(rest.as_str(), "/");
                    let mut file = String::from_str("card");
                    file.append(id.as_str());
                    file.append(".html");
                    let dir = join_path(cards_dir, owner.as_str());
                    let page_path = join_path(dir.as_str(), file.as_str());
                    let title = trim(anchor.text.as_str());
                    Some(Work { id, title, page_path })
                },
                _ => None,
            }
        },
    }
}

/// The works among the entries `items` of an author's page, with cards below
/// `cards_dir`.
pub fn works_among(items: &Vec<ListItem>, cards_dir: &str) -> (out: Vec<Work>)
    ensures
        works_view(out@) == works_of(items_view(items@), cards_dir@),
{
    let ghost views = items_view(items@);
    let mut out: Vec<Work> = Vec::new();
    let mut i: usize = 0;
    assert(works_view(out@) =~= works_of(views.take(0), cards_dir@));
    while i < items.len()
        invariant
            i <= items.len(),
            views == items_view(items@),
            works_view(out@) == works_of(views.take(i as int), cards_dir@),
        decreases items.len() - i,
    {
        let ghost before = out@;
        proof {
            assert(views.take(i + 1).drop_last() =~= views.take(i as int));
            assert(views.take(i + 1).last() == items@[i as int]@);
        }
        if let Some(w) = work_in(&items[i], cards_dir) {
            out.push(w);
            assert(works_view(out@) =~= works_view(before).push(w@));
        }
        i += 1;
    }
    assert(views.take(i as int) =~= views);
    out
}

/// The works of `author`, whose page reads `page`: every entry of its
/// ordered lists that is a work of the author's own and links to
/// `../cards/<author>/card<id>.html` gives one work. An author without a
/// page (`None`) has no works.
pub fn extract_works(author: &Author, page: Option<&str>) -> (out: Vec<Work>)
    ensures
        works_view(out@) == match page {
            Some(p) => works_of(list_items_of(p@), cards_dir_of(author.page_path@)),
            None => Seq::empty(),
        },
{
    match page {
        None => {
            let out: Vec<Work> = Vec::new();
            assert(works_view(out@) =~= Seq::empty());
            out
        },
        Some(p) => {
            let items = list_items(p);
            let dir = cards_dir(author.page_path.as_str());
            works_among(&items, dir.as_str())
        },
    }
}

/// A digit of ASCII.
pub open spec fn is_digit(c: char) -> bool {
    48 <= c as int <= 57
}

/// A run of digits.
pub open spec fn all_digits(s: Seq<char>) -> bool {
    forall|i: int| 0 <= i < s.len() ==> is_digit(#[trigger] s[i])
}

/// An identifier written in digits is read back as it stands: in a link made
/// of anything, the prefix, a run of digits, a suffix that does not begin
/// with a digit, and anything, the identifier is the run of digits, provided
/// that the prefix does not stand in the link once more further right.
pub proof fn lemma_digits_are_read_back(
    before: Seq<char>,
    prefix: Seq<char>,
    digits: Seq<char>,
    suffix: Seq<char>,
    after: Seq<char>,
)
    requires
        all_digits(digits),
        suffix.len() > 0,
        !is_digit(suffix[0]),
        forall|j: int|
            before.len() < j ==> !occurs_at(before + prefix + digits + suffix + after, prefix, j),
    ensures
        id_in_href(before + prefix + digits + suffix + after, prefix, suffix) == Some(digits),
{
    let href = before + prefix + digits + suffix + after;
    let at = before.len() as int;
    assert(href.subrange(at, at + prefix.len()) =~= prefix);
    lemma_last_occurrence_unique(href, prefix, at);
    let start = at + prefix.len();
    let rest = href.subrange(start, href.len() as int);
    assert(rest =~= digits + suffix + after);
    let d = digits.len() as int;
    assert(rest.subrange(d, d + suffix.len()) =~= suffix);
    assert forall|j: int| 0 <= j < d implies !occurs_at(rest, suffix, j) by {
        if occurs_at(rest, suffix, j) {
            assert(rest.subrange(j, j + suffix.len())[0] == suffix[0]);
            assert(rest[j] == digits[j]);
        }
    }
    lemma_first_occurrence_unique(rest, suffix, d);
    assert(rest.subrange(0, d) =~= digits);
}

/// Where the first character of the prefix stands nowhere else in it, nor in
/// the suffix, and is no digit, the prefix stands further right only inside
/// what follows the suffix.
proof fn lemma_no_prefix_further_right(
    before: Seq<char>,
    prefix: Seq<char>,
    digits: Seq<char>,
    suffix: Seq<char>,
    after: Seq<char>,
)
    requires
        all_digits(digits),
        prefix.len() > 0,
        !is_digit(prefix[0]),
        forall|k: int| 1 <= k < prefix.len() ==> #[trigger] prefix[k] != prefix[0],
        forall|k: int| 0 <= k < suffix.len() ==> #[trigger] suffix[k] != prefix[0],
        !contains(after, prefix),
    ensures
        forall|j: int|
            before.len() < j ==> !occurs_at(before + prefix + digits + suffix + after, prefix, j),
{
    let href = before + prefix + digits + suffix + after;
    let b = before.len() as int;
    let p = prefix.len() as int;
    let d = digits.len() as int;
    let x = suffix.len() as int;
    assert forall|j: int| b < j implies !occurs_at(href, prefix, j) by {
        if occurs_at(href, prefix, j) {
            assert(href.subrange(j, j + p)[0] == prefix[0]);
            assert(href[j] == prefix[0]);
            if j >= b + p + d + x {
                let k = j - (b + p + d + x);
                assert(after.subrange(k, k + p) =~= href.subrange(j, j + p));
                assert(occurs_at(after, prefix, k));
            } else if j >= b + p + d {
                assert(href[j] == suffix[j - b - p - d]);
            } else if j >= b + p {
                assert(href[j] == digits[j - b - p]);
                assert(is_digit(digits[j - b - p]));
            } else {
                assert(href[j] == prefix[j - b]);
            }
        }
    }
}

/// The identifier of an author is the run of digits of the link: from
/// `person<digits>.html` and whatever follows, the digits are read back,
/// provided that what follows does not hold `person` again.
pub proof fn lemma_author_id_is_the_digits(digits: Seq<char>, after: Seq<char>)
    requires
        all_digits(digits),
        !contains(after, "person"@),
    ensures
        id_in_href("person"@ + digits + ".html"@ + after, "person"@, ".html"@) == Some(digits),
{
    reveal_strlit("person");
    reveal_strlit(".html");
    let before = Seq::<char>::empty();
    assert(before + "person"@ + digits + ".html"@ + after =~= "person"@ + digits + ".html"@
        + after);
    lemma_no_prefix_further_right(before, "person"@, digits, ".html"@, after);
    lemma_digits_are_read_back(before, "person"@, digits, ".html"@, after);
}

/// The identifier of a work is the run of digits of the link: from a link
/// that ends in `card<digits>.html`, the digits are read back.
pub proof fn lemma_work_id_is_the_digits(before: Seq<char>, digits: Seq<char>)
    requires
        all_digits(digits),
    ensures
        id_in_href(before + "card"@ + digits + ".html"@, "card"@, ".html"@) == Some(digits),
{
    reveal_strlit("card");
    reveal_strlit(".html");
    let after = Seq::<char>::empty();
    assert(before + "card"@ + digits + ".html"@ + after =~= before + "card"@ + digits
        + ".html"@);
    assert(!contains(after, "card"@));
    lemma_no_prefix_further_right(before, "card"@, digits, ".html"@, after);
    lemma_digits_are_read_back(before, "card"@, digits, ".html"@, after);
}

/// An entry marked as under copyright is left out wherever it stands: the
/// authors of a list are those of the list without it.
pub proof fn lemma_restricted_entry_is_left_out(
    items: Seq<ListItemView>,
    i: int,
    entry: ListItemView,
    dir: Seq<char>,
)
    requires
        0 <= i <= items.len(),
        !is_public_domain(entry.markup),
    ensures
        authors_of(items.insert(i, entry), dir) == authors_of(items, dir),
    decreases items.len() - i,
{
    let with = items.insert(i, entry);
    if i == items.len() {
        assert(with.drop_last() =~= items);
        assert(with.last() == entry);
    } else {
        lemma_restricted_entry_is_left_out(items.drop_last(), i, entry, dir);
        assert(with.drop_last() =~= items.drop_last().insert(i, entry));
        assert(with.last() == items.last());
    }
}

/// The first wanted link of two runs of links, one after the other.
pub proof fn lemma_first_wanted_concat(
    a: Seq<Option<Seq<char>>>,
    b: Seq<Option<Seq<char>>>,
    kind: LinkKind,
)
    ensures
        first_wanted(a + b, kind) == if first_wanted(a, kind) is Some {
            first_wanted(a, kind)
        } else {
            first_wanted(b, kind)
        },
    decreases a.len(),
{
    if a.len() == 0 {
        assert(a + b =~= b);
    } else {
        assert((a + b)[0] == a[0]);
        assert((a + b).drop_first() =~= a.drop_first() + b);
        lemma_first_wanted_concat(a.drop_first(), b, kind);
    }
}

/// A TTZ archive is passed over wherever it stands in the download table:
/// the archive chosen is the one chosen without it.
pub proof fn lemma_ttz_is_passed_over(hrefs: Seq<Option<Seq<char>>>, i: int, ttz: Seq<char>)
    requires
        0 <= i <= hrefs.len(),
        ends_with(ttz, "ttz.zip"@),
    ensures
        first_wanted(hrefs.insert(i, Some(ttz)), LinkKind::Archive) == first_wanted(
            hrefs,
            LinkKind::Archive,
        ),
{
    let kind = LinkKind::Archive;
    let a = hrefs.take(i);
    let b = hrefs.skip(i);
    let one = seq![Some(ttz)];
    assert(hrefs.insert(i, Some(ttz)) =~= a + one + b);
    assert(hrefs =~= a + b);
    lemma_first_wanted_concat(a + one, b, kind);
    lemma_first_wanted_concat(a, one, kind);
    lemma_first_wanted_concat(a, b, kind);
    assert(!wanted(one[0], kind));
    assert(one.drop_first() =~= Seq::<Option<Seq<char>>>::empty());
    assert(first_wanted(one.drop_first(), kind) is None);
    assert(first_wanted(one, kind) is None);
}

/// A download table without a link into `./files` gives no links: the work
/// has no archive.
pub proof fn lemma_no_candidate_no_links(work_page_path: Seq<char>, hrefs: Seq<Option<Seq<char>>>)
    requires
        forall|i: int| 0 <= i < hrefs.len() ==> !is_candidate(#[trigger] hrefs[i]),
    ensures
        links_on_card(work_page_path, hrefs) is None,
{
    lemma_first_wanted_at(hrefs, LinkKind::Archive, hrefs.len() as int);
}

} // verus!
