//! What the library reads out of an HTML page. The pages are parsed by the
//! `scraper` crate; the rest of the library works on the plain values below.

use vstd::prelude::*;
use vstd::string::*;
use scraper::{Html, Selector};
use crate::models::{copy_opt, opt_view};

verus! {

/// A link of a page.
#[derive(Debug, Clone, PartialEq, Eq)]
pub struct Anchor {
    /// Its `href` attribute, if it has one.
    pub href: Option<String>,
    /// The text below it, all text nodes in document order.
    pub text: String,
}

/// The text of a link, field by field.
pub struct AnchorView {
    pub href: Option<Seq<char>>,
    pub text: Seq<char>,
}

impl View for Anchor {
    type V = AnchorView;

    open spec fn view(&self) -> AnchorView {
        AnchorView { href: opt_view(self.href), text: self.text@ }
    }
}

/// The views of a run of links.
pub open spec fn anchors_view(anchors: Seq<Anchor>) -> Seq<AnchorView> {
    anchors.map_values(|a: Anchor| a@)
}

/// An element of a page, with the links found below it.
#[derive(Debug, Clone, PartialEq, Eq)]
pub struct Element {
    /// The element's own markup, tags included.
    pub markup: String,
    /// The links below it, in document order.
    pub anchors: Vec<Anchor>,
}

/// The text of an element, field by field.
pub struct ElementView {
    pub markup: Seq<char>,
    pub anchors: Seq<AnchorView>,
}

impl View for Element {
    type V = ElementView;

    open spec fn view(&self) -> ElementView {
        ElementView { markup: self.markup@, anchors: anchors_view(self.anchors@) }
    }
}

/// The views of a run of elements.
pub open spec fn elements_view(elements: Seq<Element>) -> Seq<ElementView> {
    elements.map_values(|e: Element| e@)
}

/// One entry of an ordered list of a page.
#[derive(Debug, Clone, PartialEq, Eq)]
pub struct ListItem {
    /// The entry's own markup, tags included.
    pub markup: String,
    /// The first link below it, if there is one.
    pub anchor: Option<Anchor>,
}

/// The text of a list entry, field by field.
pub struct ListItemView {
    pub markup: Seq<char>,
    pub anchor: Option<AnchorView>,
}

impl View for ListItem {
    type V = ListItemView;

    open spec fn view(&self) -> ListItemView {
        ListItemView {
            markup: self.markup@,
            anchor: match self.anchor {
                Some(a) => Some(a@),
                None => None,
            },
        }
    }
}

/// The views of a run of list entries.
pub open spec fn items_view(items: Seq<ListItem>) -> Seq<ListItemView> {
    items.map_values(|e: ListItem| e@)
}

/// The views of a run of optional strings.
pub open spec fn hrefs_view(hrefs: Seq<Option<String>>) -> Seq<Option<Seq<char>>> {
    hrefs.map_values(|h: Option<String>| opt_view(h))
}

/// The longest page, in characters, that is handed to the parser: its text
/// in UTF-8 then stays below the `u32::MAX` bytes that the parser's buffers
/// can hold.
pub const MAX_PAGE_CHARS: usize = 0x3fff_ffff;

/// What the library looks for in a page.
#[derive(Debug, Clone, Copy, PartialEq, Eq)]
pub enum Selection {
    /// The entries of the ordered lists, each with the links below it.
    ListEntries,
    /// The download tables, each with the links below it that lead somewhere.
    DownloadTables,
}

/// The selector of the elements that `what` asks for.
pub open spec fn outer_of(what: Selection) -> Seq<char> {
    match what {
        Selection::ListEntries => "ol > li"@,
        Selection::DownloadTables => "table.download"@,
    }
}

/// The selector of the links that `what` asks for below each element.
pub open spec fn inner_of(what: Selection) -> Seq<char> {
    match what {
        Selection::ListEntries => "a"@,
        Selection::DownloadTables => "a[href]"@,
    }
}

/// The elements that `scraper` finds in the page `page` under the selector
/// `outer`, in the order in which it hands them out, each with the elements
/// that it finds below it under the selector `inner`; `None` where it refuses
/// one of the selectors.
pub uninterp spec fn elements_of(page: Seq<char>, outer: Seq<char>, inner: Seq<char>) -> Option<
    Seq<ElementView>,
>;

/// Parses the two selectors with `scraper::Selector::parse` and `page` with
/// `scraper::Html::parse_document`; of each element that `Html::select`
/// hands out for `outer` takes `ElementRef::html`, and of each element below
/// it that `ElementRef::select` hands out for `inner` the attribute `href`
/// (`Element::attr`) and the text (`ElementRef::text`). Left out are the
/// pages of more than `MAX_PAGE_CHARS` characters: `parse_document` copies the
/// page into a buffer that refuses more than `u32::MAX` bytes. Left out are
/// all selectors but the two pairs that the library asks for: matching goes
/// one call deeper for each step of a selector, and these have two steps at
/// most. Trusted: that the call returns, and that the outcome depends on the
/// three texts alone, which is what the name `elements_of` stands for.
#[verifier::external_body]
pub(crate) fn select(page: &str, outer: &str, inner: &str) -> (out: Option<Vec<Element>>)
    requires
        page@.len() <= MAX_PAGE_CHARS,
        exists|what: Selection| outer@ == #[trigger] outer_of(what) && inner@ == inner_of(what),
    ensures
        match out {
            Some(elements) => elements_of(page@, outer@, inner@) == Some(elements_view(elements@)),
            None => elements_of(page@, outer@, inner@) is None,
        },
{
    let outer = Selector::parse(outer).ok()?;
    let inner = Selector::parse(inner).ok()?;
    let document = Html::parse_document(page);
    let mut out = Vec::new();
    for element in document.select(&outer) {
        let mut anchors = Vec::new();
        for a in element.select(&inner) {
            let href = a.value().attr("href").map(String::from);
            anchors.push(Anchor { href, text: a.text().collect() });
        }
        out.push(Element { markup: element.html(), anchors });
    }
    Some(out)
}

/// A copy of a link.
pub fn copy_anchor(a: &Anchor) -> (out: Anchor)
    ensures
        out@ == a@,
{
    Anchor { href: copy_opt(&a.href), text: a.text.clone() }
}

/// The list entry that an element under `ol > li` is: its markup, and the
/// first of the links below it.
pub open spec fn item_of(element: ElementView) -> ListItemView {
    ListItemView {
        markup: element.markup,
        anchor: if element.anchors.len() > 0 {
            Some(element.anchors[0])
        } else {
            None
        },
    }
}

/// What `what` asks for in the page `page`; nothing in a page of more than
/// `MAX_PAGE_CHARS` characters, which is not parsed.
pub open spec fn found_in(page: Seq<char>, what: Selection) -> Option<Seq<ElementView>> {
    if page.len() <= MAX_PAGE_CHARS {
        elements_of(page, outer_of(what), inner_of(what))
    } else {
        None
    }
}

/// The entries of the ordered lists of the page `page`: what is found under
/// `ol > li`, each with the first `a` below it.
pub open spec fn list_items_of(page: Seq<char>) -> Seq<ListItemView> {
    match found_in(page, Selection::ListEntries) {
        Some(elements) => elements.map_values(|e: ElementView| item_of(e)),
        None => Seq::empty(),
    }
}

/// The `href` of each `a[href]` below the first `table.download` of the page
/// `page`; `None` where the page has no such table.
pub open spec fn download_links_of(page: Seq<char>) -> Option<Seq<Option<Seq<char>>>> {
    match found_in(page, Selection::DownloadTables) {
        Some(tables) => if tables.len() > 0 {
            Some(tables[0].anchors.map_values(|a: AnchorView| a.href))
        } else {
            None
        },
        None => None,
    }
}

/// What `what` asks for in the page `page`.
pub fn find_elements(page: &str, what: Selection) -> (out: Option<Vec<Element>>)
    ensures
        match out {
            Some(elements) => found_in(page@, what) == Some(elements_view(elements@)),
            None => found_in(page@, what) is None,
        },
{
    if page.unicode_len() > MAX_PAGE_CHARS {
        return None;
    }
    match what {
        Selection::ListEntries => select(page, "ol > li", "a"),
        Selection::DownloadTables => select(page, "table.download", "a[href]"),
    }
}

/// The entries of the ordered lists of the page `page`.
pub fn list_items(page: &str) -> (out: Vec<ListItem>)
    ensures
        items_view(out@) == list_items_of(page@),
{
    let mut out: Vec<ListItem> = Vec::new();
    match find_elements(page, Selection::ListEntries) {
        None => {
            assert(items_view(out@) =~= Seq::empty());
        },
        Some(elements) => {
            let ghost views = elements_view(elements@);
            let ghost wanted = views.map_values(|e: ElementView| item_of(e));
            let mut i: usize = 0;
            while i < elements.len()
                invariant
                    i <= elements.len(),
                    views == elements_view(elements@),
                    wanted == views.map_values(|e: ElementView| item_of(e)),
                    items_view(out@) == wanted.take(i as int),
                decreases elements.len() - i,
            {
                let ghost before = items_view(out@);
                let element = &elements[i];
                let anchor = if element.anchors.len() > 0 {
                    Some(copy_anchor(&element.anchors[0]))
                } else {
                    None
                };
                let item = ListItem { markup: element.markup.clone(), anchor };
                assert(item@ == item_of(views[i as int]));
                out.push(item);
                assert(items_view(out@) =~= before.push(item@));
                assert(wanted.take(i + 1) =~= before.push(item@));
                i += 1;
            }
            assert(wanted.take(i as int) =~= wanted);
        },
    }
    out
}

/// The links of the first download table of the page `page`.
pub fn download_links(page: &str) -> (out: Option<Vec<Option<String>>>)
    ensures
        match out {
            Some(hrefs) => download_links_of(page@) == Some(hrefs_view(hrefs@)),
            None => download_links_of(page@) is None,
        },
{
    match find_elements(page, Selection::DownloadTables) {
        None => None,
        Some(tables) => {
            if tables.len() == 0 {
                return None;
            }
            let anchors = &tables[0].anchors;
            let ghost wanted = elements_view(tables@)[0].anchors.map_values(
                |a: AnchorView| a.href,
            );
            let mut hrefs: Vec<Option<String>> = Vec::new();
            let mut i: usize = 0;
            while i < anchors.len()
                invariant
                    i <= anchors.len(),
                    wanted == anchors_view(anchors@).map_values(|a: AnchorView| a.href),
                    hrefs_view(hrefs@) == wanted.take(i as int),
                decreases anchors.len() - i,
            {
                let ghost before = hrefs_view(hrefs@);
                let href = copy_opt(&anchors[i].href);
                hrefs.push(href);
                assert(hrefs_view(hrefs@) =~= before.push(opt_view(href)));
                assert(wanted.take(i + 1) =~= before.push(opt_view(href)));
                i += 1;
            }
            assert(wanted.take(i as int) =~= wanted);
            Some(hrefs)
        },
    }
}

} // verus!
