//! A listing of products: one sub-category of the shop, read page by page.

use vstd::prelude::*;
use std::rc::Rc;
use crate::html::HtmlDoc;
use crate::html::NodeView;
use crate::html::Query;
use crate::html::QueryView;
use crate::html::attr_of;
use crate::html::find_all;
use crate::html::last_of;
use crate::html::parsed;
use crate::text::all_digits;
use crate::text::decimal;
use crate::text::digits_value;
use crate::text::lemma_decimal_reads_back;
use crate::text::parse_i32;
use crate::text::parse_i32_spec;
use crate::text::push_decimal;
use crate::text::views;

verus! {

/// The address of the shop that is scraped.
pub const BASE_URI: &'static str = "https://www.webscraper.io";

/// A sub-category listing and how far it has been read.
pub struct ProductPage {
    pub category: String,
    pub sub_category: String,
    /// The path of the listing, below `BASE_URI`.
    pub uri: String,
    /// The paths of the products found so far.
    pub products_uri: Vec<String>,
    /// The number of the last page, once a page has shown it.
    pub last_page: Option<u16>,
    /// The number of the next page to read.
    pub index: u16,
    /// Where iteration over the remaining page numbers stands.
    pub iter_index: u16,
    /// 1 while pages remain to be read, 0 once the last page was read.
    pub process: u8,
}

/// `ul.pagination a`: the links of the page navigation.
pub open spec fn pagination_links() -> QueryView {
    QueryView::Descendant(
        Box::new(
            QueryView::And(
                Box::new(QueryView::Name("ul"@)),
                Box::new(QueryView::Class("pagination"@)),
            ),
        ),
        Box::new(QueryView::Name("a"@)),
    )
}

/// `div.row .thumbnail a`: the links of the product thumbnails.
pub open spec fn thumbnail_links() -> QueryView {
    QueryView::Descendant(
        Box::new(
            QueryView::Descendant(
                Box::new(
                    QueryView::And(
                        Box::new(QueryView::Name("div"@)),
                        Box::new(QueryView::Class("row"@)),
                    ),
                ),
                Box::new(QueryView::Class("thumbnail"@)),
            ),
        ),
        Box::new(QueryView::Name("a"@)),
    )
}

/// The nodes among `ids` whose text reads as an `i32`.
pub open spec fn numbered(nodes: Seq<NodeView>, ids: Seq<usize>) -> Seq<usize>
    decreases ids.len(),
{
    if ids.len() == 0 {
        ids
    } else if parse_i32_spec(nodes[ids.last() as int].text) is Some {
        numbered(nodes, ids.drop_last()).push(ids.last())
    } else {
        numbered(nodes, ids.drop_last())
    }
}

/// The last page number that the navigation of a page shows: the text of its
/// last numbered link, as a `u16` (by truncation, as `as` converts).
pub open spec fn last_page_shown(nodes: Seq<NodeView>) -> Option<u16> {
    match last_of(numbered(nodes, find_all(nodes, pagination_links()))) {
        Some(k) => Some(#[verifier::truncate] (parse_i32_spec(nodes[k as int].text).unwrap() as u16)),
        None => None,
    }
}

/// The `href` values of the nodes among `ids` that have one.
pub open spec fn hrefs(nodes: Seq<NodeView>, ids: Seq<usize>) -> Seq<Seq<char>>
    decreases ids.len(),
{
    if ids.len() == 0 {
        Seq::empty()
    } else {
        match attr_of(nodes[ids.last() as int].attrs, "href"@) {
            Some(h) => hrefs(nodes, ids.drop_last()).push(h),
            None => hrefs(nodes, ids.drop_last()),
        }
    }
}

/// The product paths that a page links from its thumbnails.
pub open spec fn product_links(nodes: Seq<NodeView>) -> Seq<Seq<char>> {
    hrefs(nodes, find_all(nodes, thumbnail_links()))
}

/// The address of page `index` of the listing at `uri`.
pub open spec fn index_url(uri: Seq<char>, index: u16) -> Seq<char> {
    BASE_URI@ + uri + "?page="@ + decimal(index as nat)
}

/// The page numbers `from`, `from + 1`, ..., `to` (none when `from > to`).
pub open spec fn page_numbers(from: int, to: int) -> Seq<u16> {
    Seq::new(if from <= to { (to - from + 1) as nat } else { 0 }, |k: int| (from + k) as u16)
}

/// The page numbers that iteration yields from `iter_index` on: those after
/// it up to the last page, none when the last page is unknown.
pub open spec fn pages_after(iter_index: u16, last_page: Option<u16>) -> Seq<u16> {
    match last_page {
        Some(l) => page_numbers(iter_index + 1, l as int),
        None => Seq::empty(),
    }
}

/// The `href` values of the nodes `ids` of `doc` that have one.
fn hrefs_of(doc: &HtmlDoc, ids: &Vec<usize>) -> (r: Vec<String>)
    requires
        forall|i: int| 0 <= i < ids@.len() ==> #[trigger] ids@[i] < doc@.len(),
    ensures
        views(r@) == hrefs(doc@, ids@),
{
    let mut r: Vec<String> = Vec::new();
    let mut i: usize = 0;
    while i < ids.len()
        invariant
            i <= ids@.len(),
            forall|i: int| 0 <= i < ids@.len() ==> #[trigger] ids@[i] < doc@.len(),
            views(r@) == hrefs(doc@, ids@.take(i as int)),
        decreases ids@.len() - i,
    {
        assert(ids@.take(i + 1).drop_last() =~= ids@.take(i as int));
        let h = doc.attr(ids[i], "href");
        match h {
            Some(v) => {
                r.push(v);
                assert(views(r@) =~= hrefs(doc@, ids@.take(i as int)).push(v@));
            },
            None => {},
        }
        i = i + 1;
    }
    assert(ids@.take(ids@.len() as int) =~= ids@);
    r
}

/// Appends copies of `more` to `v`.
pub fn extend_strings(v: &mut Vec<String>, more: &Vec<String>)
    ensures
        final(v)@ == old(v)@ + more@,
{
    let mut i: usize = 0;
    while i < more.len()
        invariant
            i <= more@.len(),
            v@ == old(v)@ + more@.take(i as int),
        decreases more@.len() - i,
    {
        v.push(more[i].clone());
        assert(v@ =~= old(v)@ + more@.take(i + 1));
        i = i + 1;
    }
    assert(more@.take(more@.len() as int) =~= more@);
}

/// `q` is what reading the page `res` makes of the listing `p`: the last
/// page number and the products come from `res`, the next page number moves
/// on by one, and reading stops (`process` becomes 0) once that number
/// passes the last page.
pub open spec fn parse_step(p: ProductPage, q: ProductPage, res: Seq<char>) -> bool {
    &&& q.last_page == last_page_shown(parsed(res))
    &&& views(q.products_uri@) == views(p.products_uri@) + product_links(parsed(res))
    &&& q.index == p.index + 1
    &&& q.iter_index == p.iter_index + 1
    &&& q.process == (if q.last_page matches Some(l) && q.index > l {
        0
    } else {
        p.process
    })
    &&& q.category == p.category
    &&& q.sub_category == p.sub_category
    &&& q.uri == p.uri
}

/// `q` is the listing `p` after one step of iteration that yielded `r`:
/// the page number after `iter_index` while it is at most the last page,
/// else `None` with iteration started over from `index`.
pub open spec fn next_step(p: ProductPage, q: ProductPage, r: Option<u16>) -> bool {
    &&& ({
        let n = (p.iter_index + 1) as u16;
        match p.last_page {
            Some(l) if n <= l => r == Some(n) && q.iter_index == n,
            _ => r is None && q.iter_index == p.index,
        }
    })
    &&& q.index == p.index
    &&& q.last_page == p.last_page
    &&& q.process == p.process
    &&& q.products_uri == p.products_uri
    &&& q.category == p.category
    &&& q.sub_category == p.sub_category
    &&& q.uri == p.uri
}

/// `q` is the listing `p` with iteration started over from `index`.
pub open spec fn restart_step(p: ProductPage, q: ProductPage) -> bool {
    &&& q.iter_index == p.index
    &&& q.index == p.index
    &&& q.last_page == p.last_page
    &&& q.process == p.process
    &&& q.products_uri == p.products_uri
    &&& q.category == p.category
    &&& q.sub_category == p.sub_category
    &&& q.uri == p.uri
}

/// The last page number that the document `doc` shows in its navigation.
pub fn last_page_in(doc: &HtmlDoc) -> (r: Option<u16>)
    ensures
        r == last_page_shown(doc@),
{
    let q = Query::name("ul").and(Query::class("pagination")).descendant(Query::name("a"));
    let ids = doc.find(&q);
    let ghost nodes = doc@;
    let mut found: Option<u16> = None;
    let mut i: usize = 0;
    while i < ids.len()
        invariant
            i <= ids@.len(),
            nodes == doc@,
            ids@ == find_all(nodes, pagination_links()),
            forall|k: int| 0 <= k < ids@.len() ==> #[trigger] ids@[k] < nodes.len(),
            found == (match last_of(numbered(nodes, ids@.take(i as int))) {
                Some(k) => Some(#[verifier::truncate] (parse_i32_spec(nodes[k as int].text).unwrap() as u16)),
                None => None,
            }),
        decreases ids@.len() - i,
    {
        assert(ids@.take(i + 1).drop_last() =~= ids@.take(i as int));
        let node = doc.node(ids[i]);
        match parse_i32(node.text.as_str()) {
            Some(v) => {
                found = Some(#[verifier::truncate] (v as u16));
            },
            None => {},
        }
        i = i + 1;
    }
    assert(ids@.take(ids@.len() as int) =~= ids@);
    found
}

/// The product paths that the document `doc` links from its thumbnails.
pub fn product_urls_in(doc: &HtmlDoc) -> (r: Vec<String>)
    ensures
        views(r@) == product_links(doc@),
{
    let q = Query::name("div").and(Query::class("row")).descendant(Query::class("thumbnail")).descendant(
        Query::name("a"),
    );
    let ids = doc.find(&q);
    hrefs_of(doc, &ids)
}

impl ProductPage {
    /// A listing that no page has been read of yet.
    pub fn new(category: Rc<String>, sub_category: String, uri: String) -> (p: ProductPage)
        ensures
            p.category@ == (*category)@,
            p.sub_category == sub_category,
            p.uri == uri,
            p.products_uri@.len() == 0,
            p.last_page is None,
            p.index == 1,
            p.iter_index == 1,
            p.process == 1,
    {
        ProductPage {
            category: (*category).clone(),
            sub_category,
            uri,
            products_uri: Vec::new(),
            last_page: None,
            index: 1,
            iter_index: 1,
            process: 1,
        }
    }

    /// The address of the next page to read.
    pub fn get_index_url(&self) -> (r: String)
        ensures
            r@ == index_url(self.uri@, self.index),
    {
        let mut r = String::from_str(BASE_URI);
        r.append(self.uri.as_str());
        r.append("?page=");
        push_decimal(&mut r, self.index);
        r
    }

    /// The last page number that the page `res` shows in its navigation.
    pub fn get_last_page(&self, res: &String) -> (r: Option<u16>)
        ensures
            r == last_page_shown(parsed(res@)),
    {
        last_page_in(&HtmlDoc::parse(res.as_str()))
    }

    /// The product paths that the page `res` links.
    pub fn get_product_urls(&self, res: &String) -> (r: Vec<String>)
        ensures
            views(r@) == product_links(parsed(res@)),
    {
        product_urls_in(&HtmlDoc::parse(res.as_str()))
    }

    /// Takes in the page `res` that was read at `get_index_url`: records the
    /// last page number it shows and the products it links, and moves on to
    /// the next page; reading stops once the page number passes the last page.
    pub fn parse_next_page(&mut self, res: &String)
        requires
            old(self).index < u16::MAX,
            old(self).iter_index < u16::MAX,
        ensures
            parse_step(*old(self), *final(self), res@),
    {
        self.last_page = self.get_last_page(res);
        let urls = self.get_product_urls(res);
        let ghost before = self.products_uri@;
        extend_strings(&mut self.products_uri, &urls);
        assert(views(self.products_uri@) =~= views(before) + views(urls@));
        self.index = self.index + 1;
        self.iter_index = self.iter_index + 1;
        match self.last_page {
            Some(l) => {
                if self.index > l {
                    self.process = 0;
                }
            },
            None => {},
        }
    }

    /// The next page number still to read, as iteration yields them: the
    /// numbers after `iter_index` up to the last page. At the end it yields
    /// `None` and starts over from `index`.
    pub fn next(&mut self) -> (r: Option<u16>)
        requires
            old(self).iter_index < u16::MAX,
        ensures
            next_step(*old(self), *final(self), r),
    {
        self.iter_index = self.iter_index + 1;
        match self.last_page {
            Some(l) => {
                if self.iter_index > l {
                    self.iter_index = self.index;
                    return None;
                }
            },
            None => {
                self.iter_index = self.index;
                return None;
            },
        }
        Some(self.iter_index)
    }

    /// All the page numbers that iteration yields, then a `0`: one entry for
    /// each page still to read. Iteration starts over from `index` after.
    pub fn page_indexes(&mut self) -> (r: Vec<u16>)
        requires
            old(self).iter_index < u16::MAX,
            old(self).last_page matches Some(l) ==> l < u16::MAX,
        ensures
            r@ == pages_after(old(self).iter_index, old(self).last_page).push(0),
            restart_step(*old(self), *final(self)),
    {
        let ghost start = self.iter_index;
        let mut r: Vec<u16> = Vec::new();
        loop
            invariant
                self.index == old(self).index,
                self.last_page == old(self).last_page,
                self.process == old(self).process,
                self.products_uri == old(self).products_uri,
                self.category == old(self).category,
                self.sub_category == old(self).sub_category,
                self.uri == old(self).uri,
                start == old(self).iter_index < u16::MAX,
                old(self).last_page matches Some(l) ==> l < u16::MAX,
                start <= self.iter_index,
                self.iter_index == start || (self.last_page matches Some(l) && self.iter_index
                    <= l),
                self.last_page is None ==> self.iter_index == start,
                r@ == page_numbers(start + 1, self.iter_index as int),
            decreases u16::MAX - self.iter_index,
        {
            let ghost it = self.iter_index;
            match self.next() {
                Some(v) => {
                    r.push(v);
                    assert(r@ =~= page_numbers(start + 1, v as int));
                },
                None => {
                    assert(r@ =~= pages_after(start, old(self).last_page));
                    r.push(0);
                    return r;
                },
            }
        }
    }
}


/// When iteration stands at the next page to read, it gives one entry for
/// each page still to read, `index` up to the last page: the pages after
/// `index` in order, then the `0` that stands for `index` itself.
pub proof fn lemma_one_entry_per_page(index: u16, last: u16)
    requires
        index <= last,
    ensures
        pages_after(index, Some(last)).push(0).len() == last - index + 1,
        forall|k: int|
            0 <= k < last - index ==> #[trigger] pages_after(index, Some(last))[k] == index + 1 + k,
{
}


/// The number of product paths found over all listings.
pub open spec fn url_total(pages: Seq<ProductPage>) -> nat
    decreases pages.len(),
{
    if pages.len() == 0 {
        0
    } else {
        url_total(pages.drop_last()) + pages.last().products_uri@.len()
    }
}

/// The listings before `i` hold no more product paths than all of them.
proof fn lemma_url_total_prefix(pages: Seq<ProductPage>, i: int)
    requires
        0 <= i <= pages.len(),
    ensures
        url_total(pages.take(i)) <= url_total(pages),
    decreases pages.len(),
{
    if i < pages.len() {
        assert(pages.drop_last().take(i) =~= pages.take(i));
        lemma_url_total_prefix(pages.drop_last(), i);
    } else {
        assert(pages.take(i) =~= pages);
    }
}

/// The number of product paths found over all listings (how many products
/// there are to read).
pub fn total_product_urls(pages: &Vec<ProductPage>) -> (r: usize)
    requires
        url_total(pages@) <= usize::MAX,
    ensures
        r == url_total(pages@),
{
    let mut total: usize = 0;
    let mut i: usize = 0;
    while i < pages.len()
        invariant
            i <= pages@.len(),
            url_total(pages@) <= usize::MAX,
            total == url_total(pages@.take(i as int)),
        decreases pages@.len() - i,
    {
        proof {
            assert(pages@.take(i + 1).drop_last() =~= pages@.take(i as int));
            lemma_url_total_prefix(pages@, i + 1);
        }
        total = total + pages[i].products_uri.len();
        i = i + 1;
    }
    assert(pages@.take(pages@.len() as int) =~= pages@);
    total
}


/// `q` follows from the listing `p` by one of its operations: reading a
/// page, one step of iteration, or collecting the page numbers.
#[verifier::opaque]
pub open spec fn follows(p: ProductPage, q: ProductPage) -> bool {
    ||| exists|res: Seq<char>| parse_step(p, q, res)
    ||| exists|r: Option<u16>| next_step(p, q, r)
    ||| restart_step(p, q)
}

/// The products found in `b` begin with those found in `a`, in order.
#[verifier::opaque]
pub open spec fn keeps_products(a: ProductPage, b: ProductPage) -> bool {
    let va = views(a.products_uri@);
    let vb = views(b.products_uri@);
    va.len() <= vb.len() && vb.take(va.len() as int) == va
}

/// One operation on a listing never raises its stop flag, keeps the
/// products found so far and keeps its names.
proof fn lemma_step_keeps(a: ProductPage, b: ProductPage)
    requires
        follows(a, b),
    ensures
        b.process <= a.process,
        keeps_products(a, b),
        b.category == a.category && b.sub_category == a.sub_category && b.uri == a.uri,
{
    reveal(follows);
    reveal(keeps_products);
    if exists|res: Seq<char>| parse_step(a, b, res) {
        let res = choose|res: Seq<char>| parse_step(a, b, res);
        assert(views(b.products_uri@).take(views(a.products_uri@).len() as int) =~= views(
            a.products_uri@,
        ));
    } else {
        assert(views(b.products_uri@).take(views(a.products_uri@).len() as int) =~= views(
            a.products_uri@,
        ));
    }
}

/// Between two points `i <= j` of a history of operations.
proof fn lemma_history_between(history: Seq<ProductPage>, i: int, j: int)
    requires
        0 <= i <= j < history.len(),
        forall|k: int| 0 <= k < history.len() - 1 ==> follows(#[trigger] history[k], history[k + 1]),
    ensures
        history[j].process <= history[i].process,
        keeps_products(history[i], history[j]),
        history[j].category == history[i].category,
        history[j].sub_category == history[i].sub_category,
        history[j].uri == history[i].uri,
    decreases j - i,
{
    reveal(keeps_products);
    if i == j {
        let v = views(history[i].products_uri@);
        assert(v.take(v.len() as int) =~= v);
    } else {
        lemma_history_between(history, i, j - 1);
        assert(follows(history[j - 1], history[j]));
        lemma_step_keeps(history[j - 1], history[j]);
        let vi = views(history[i].products_uri@);
        let va = views(history[j - 1].products_uri@);
        let vb = views(history[j].products_uri@);
        assert(vb.take(vi.len() as int) =~= va.take(vi.len() as int));
    }
}

/// Over the history of a listing made by `ProductPage::new`, whatever its
/// operations: reading is going on (1) or has stopped (0) and, once
/// stopped, stays stopped; the products found earlier stay, in order, at
/// the front; the category, sub-category and path never change.
pub proof fn lemma_listing_history(history: Seq<ProductPage>)
    requires
        history.len() > 0,
        history[0].process == 1,
        forall|k: int| 0 <= k < history.len() - 1 ==> follows(#[trigger] history[k], history[k + 1]),
    ensures
        forall|k: int| 0 <= k < history.len() ==> #[trigger] history[k].process <= 1,
        forall|i: int, j: int|
            0 <= i <= j < history.len() ==> #[trigger] history[j].process <= #[trigger] history[i].process
                && keeps_products(history[i], history[j]),
        forall|k: int|
            0 <= k < history.len() ==> #[trigger] history[k].category == history[0].category
                && history[k].sub_category == history[0].sub_category && history[k].uri
                == history[0].uri,
{
    assert forall|i: int, j: int| 0 <= i <= j < history.len() implies #[trigger] history[j].process
        <= #[trigger] history[i].process && keeps_products(history[i], history[j]) by {
        lemma_history_between(history, i, j);
    }
    assert forall|k: int| 0 <= k < history.len() implies #[trigger] history[k].process <= 1 by {
        lemma_history_between(history, 0, k);
    }
    assert forall|k: int| 0 <= k < history.len() implies #[trigger] history[k].category
        == history[0].category && history[k].sub_category == history[0].sub_category
        && history[k].uri == history[0].uri by {
        lemma_history_between(history, 0, k);
    }
}

/// Reading, from a listing, pages whose navigation all show the last page
/// `last`: after `k` of them the next page number is `k` further on, and
/// reading has stopped exactly when that number has passed `last` (or had
/// stopped before).
pub proof fn lemma_pages_read(history: Seq<ProductPage>, bodies: Seq<Seq<char>>, last: u16)
    requires
        history.len() == bodies.len() + 1,
        forall|k: int| 0 <= k < bodies.len() ==> parse_step(#[trigger] history[k], history[k + 1], bodies[k]),
        forall|k: int| 0 <= k < bodies.len() ==> last_page_shown(parsed(#[trigger] bodies[k])) == Some(last),
    ensures
        forall|k: int| 0 <= k < history.len() ==> #[trigger] history[k].index == history[0].index + k,
        forall|k: int|
            0 < k < history.len() ==> #[trigger] history[k].process == if history[0].index + k > last {
                0
            } else {
                history[0].process
            },
    decreases bodies.len(),
{
    if bodies.len() > 0 {
        let h = history.drop_last();
        let b = bodies.drop_last();
        assert forall|k: int| 0 <= k < b.len() implies parse_step(#[trigger] h[k], h[k + 1], b[k]) by {
            assert(h[k] == history[k] && h[k + 1] == history[k + 1] && b[k] == bodies[k]);
        }
        assert forall|k: int| 0 <= k < b.len() implies last_page_shown(parsed(#[trigger] b[k])) == Some(last) by {
            assert(b[k] == bodies[k]);
        }
        lemma_pages_read(h, b, last);
        let n = bodies.len() as int;
        assert(parse_step(history[n - 1], history[n], bodies[n - 1]));
        assert(last_page_shown(parsed(bodies[n - 1])) == Some(last));
        assert forall|k: int| 0 <= k < history.len() implies #[trigger] history[k].index == history[0].index + k by {
            assert(h[0] == history[0]);
            if k < n {
                assert(h[k] == history[k]);
            } else {
                assert(h[n - 1] == history[n - 1]);
            }
        }
        assert forall|k: int| 0 < k < history.len() implies #[trigger] history[k].process == if history[0].index + k > last {
            0
        } else {
            history[0].process
        } by {
            assert(h[0] == history[0]);
            if k < n {
                assert(h[k] == history[k]);
            } else {
                assert(h[n - 1] == history[n - 1]);
                if n > 1 {
                    assert(h[n - 1].process == if history[0].index + (n - 1) > last {
                        0
                    } else {
                        history[0].process
                    });
                }
            }
        }
    }
}


/// The first `i` steps of a run of `next` from `iter_index == index == k`
/// with last page `last`, while each yields a number.
proof fn lemma_run_prefix(h: Seq<ProductPage>, r: Seq<Option<u16>>, k: u16, last: u16, i: int)
    requires
        h.len() == r.len() + 1,
        0 <= i < h.len(),
        h[0].iter_index == k,
        h[0].index == k,
        h[0].last_page == Some(last),
        last < u16::MAX,
        k < u16::MAX,
        forall|m: int| 0 <= m < r.len() ==> next_step(#[trigger] h[m], h[m + 1], r[m]),
        forall|m: int| 0 <= m < i ==> (#[trigger] r[m]) is Some,
    ensures
        h[i].iter_index == k + i,
        h[i].index == k,
        h[i].last_page == Some(last),
        k + i <= last || i == 0,
        forall|m: int| 0 <= m < i ==> #[trigger] r[m] == Some(#[verifier::truncate] ((k + m + 1) as u16)),
    decreases i,
{
    if i > 0 {
        lemma_run_prefix(h, r, k, last, i - 1);
        assert(next_step(h[i - 1], h[i], r[i - 1]));
        assert(r[i - 1] is Some);
    }
}

/// Calling `next` on a listing whose iteration stands at `index == k`, with
/// last page `last`, until it yields `None`: it yields the page numbers
/// after `k` up to `last`, in order (none when `last <= k`), and stands at
/// `k` again after, with the same last page, so a second run yields the same.
/// (`next` is not called with `iter_index` at `u16::MAX`, where the
/// increment overflows.)
pub proof fn lemma_iteration_run(h: Seq<ProductPage>, r: Seq<Option<u16>>, k: u16, last: u16)
    requires
        h.len() == r.len() + 1,
        r.len() > 0,
        h[0].iter_index == k,
        h[0].index == k,
        h[0].last_page == Some(last),
        last < u16::MAX,
        k < u16::MAX,
        forall|m: int| 0 <= m < r.len() ==> next_step(#[trigger] h[m], h[m + 1], r[m]),
        forall|m: int| 0 <= m < r.len() - 1 ==> (#[trigger] r[m]) is Some,
        r.last() is None,
    ensures
        r.len() - 1 == pages_after(k, Some(last)).len(),
        forall|m: int|
            0 <= m < r.len() - 1 ==> #[trigger] r[m] == Some(pages_after(k, Some(last))[m]),
        h.last().iter_index == k,
        h.last().index == k,
        h.last().last_page == Some(last),
{
    let n = r.len() - 1;
    lemma_run_prefix(h, r, k, last, n);
    assert(next_step(h[n], h[n + 1], r[n]));
    assert(h.last() == h[n + 1]);
}


/// Whether the text of node `k` reads as an `i32`.
pub open spec fn reads_as_number(nodes: Seq<NodeView>, k: usize) -> bool {
    parse_i32_spec(nodes[k as int].text) is Some
}

/// The numbered links are those among `ids` whose text reads as an `i32`,
/// in order, wherever they stand: they are `ids` filtered by that test, and
/// a link added at the end joins them exactly when its text reads as one.
pub proof fn lemma_numbered_is_filter(nodes: Seq<NodeView>, ids: Seq<usize>, k: usize)
    ensures
        numbered(nodes, ids) == ids.filter(|x: usize| reads_as_number(nodes, x)),
        reads_as_number(nodes, k) ==> numbered(nodes, ids.push(k)) == numbered(nodes, ids).push(k),
        !reads_as_number(nodes, k) ==> numbered(nodes, ids.push(k)) == numbered(nodes, ids),
    decreases ids.len(),
{
    reveal(Seq::filter);
    assert(ids.push(k).drop_last() =~= ids);
    if ids.len() > 0 {
        lemma_numbered_is_filter(nodes, ids.drop_last(), k);
    }
}

/// The last page is the number of the last pagination link whose text reads
/// as a number, wherever that link stands among the others (as a `u16`, by
/// truncation); there is none exactly when no link's text reads as one.
pub proof fn lemma_last_page_is_last_number(nodes: Seq<NodeView>)
    ensures
        ({
            let ids = find_all(nodes, pagination_links());
            &&& last_page_shown(nodes) is None <==> forall|m: int|
                0 <= m < ids.len() ==> !reads_as_number(nodes, #[trigger] ids[m])
            &&& last_page_shown(nodes) matches Some(v) ==> exists|m: int|
                0 <= m < ids.len() && #[trigger] reads_as_number(nodes, ids[m]) && v == #[verifier::truncate] (parse_i32_spec(nodes[ids[m] as int].text).unwrap() as u16)
                    && forall|m2: int| m < m2 < ids.len() ==> !reads_as_number(nodes, #[trigger] ids[m2])
        }),
{
    let ids = find_all(nodes, pagination_links());
    lemma_numbered_last(nodes, ids);
}

/// The last of the numbered links among `ids`, if any, is the last of `ids`
/// whose text reads as a number.
proof fn lemma_numbered_last(nodes: Seq<NodeView>, ids: Seq<usize>)
    ensures
        numbered(nodes, ids).len() == 0 <==> forall|m: int| 0 <= m < ids.len() ==> !reads_as_number(nodes, #[trigger] ids[m]),
        numbered(nodes, ids).len() > 0 ==> exists|m: int|
            0 <= m < ids.len() && ids[m] == numbered(nodes, ids).last() && #[trigger] reads_as_number(nodes, ids[m])
                && forall|m2: int| m < m2 < ids.len() ==> !reads_as_number(nodes, #[trigger] ids[m2]),
    decreases ids.len(),
{
    if ids.len() > 0 {
        let t = ids.drop_last();
        lemma_numbered_last(nodes, t);
        let n = ids.len() - 1;
        if reads_as_number(nodes, ids.last()) {
            assert(ids[n] == ids.last());
        } else {
            if numbered(nodes, t).len() > 0 {
                let m = choose|m: int|
                    0 <= m < t.len() && t[m] == numbered(nodes, t).last() && #[trigger] reads_as_number(nodes, t[m])
                        && forall|m2: int| m < m2 < t.len() ==> !reads_as_number(nodes, #[trigger] t[m2]);
                assert(ids[m] == t[m]);
                assert forall|m2: int| m < m2 < ids.len() implies !reads_as_number(nodes, #[trigger] ids[m2]) by {
                    if m2 < n {
                        assert(ids[m2] == t[m2]);
                    }
                }
            }
            if forall|m: int| 0 <= m < t.len() ==> !reads_as_number(nodes, #[trigger] t[m]) {
                assert forall|m: int| 0 <= m < ids.len() implies !reads_as_number(nodes, #[trigger] ids[m]) by {
                    if m < n {
                        assert(ids[m] == t[m]);
                    }
                }
            } else {
                let m = choose|m: int| 0 <= m < t.len() && reads_as_number(nodes, #[trigger] t[m]);
                assert(ids[m] == t[m]);
            }
        }
        if reads_as_number(nodes, ids.last()) {
            assert(reads_as_number(nodes, ids[n]));
        }
    }
}

/// The address of a listing page ends in a numeral that reads back as the
/// page's number.
pub proof fn lemma_index_url_number(uri: Seq<char>, index: u16)
    ensures
        exists|digits: Seq<char>|
            index_url(uri, index) == BASE_URI@ + uri + "?page="@ + digits && all_digits(digits) && #[trigger] digits_value(digits) == index,
{
    lemma_decimal_reads_back(index as nat);
    assert(digits_value(decimal(index as nat)) == index);
}


/// The product paths are the `href` attributes of the thumbnail links, in
/// order, one for each link that has one.
pub proof fn lemma_hrefs_of_links(nodes: Seq<NodeView>, ids: Seq<usize>)
    ensures
        hrefs(nodes, ids) == ids.filter_map(|k: usize| attr_of(nodes[k as int].attrs, "href"@)),
    decreases ids.len(),
{
    if ids.len() > 0 {
        lemma_hrefs_of_links(nodes, ids.drop_last());
        match attr_of(nodes[ids.last() as int].attrs, "href"@) {
            Some(h) => {
                assert(hrefs(nodes, ids.drop_last()).push(h) =~= hrefs(nodes, ids.drop_last()) + seq![h]);
            },
            None => {},
        }
    }
}

} // verus!
