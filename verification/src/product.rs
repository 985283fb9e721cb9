//! Products: reading a product page, and the variants a product is stored as.

use vstd::prelude::*;
use vstd::arithmetic::div_mod::lemma_fundamental_div_mod;
use vstd::arithmetic::div_mod::lemma_fundamental_div_mod_converse;
use crate::html::HtmlDoc;
use crate::html::NodeView;
use crate::html::Query;
use crate::html::QueryView;
use crate::html::attr_of;
use crate::html::find_all;
use crate::html::opt_view;
use crate::html::first_of;
use crate::html::parsed;
use crate::pattern::compile;
use crate::pattern::first_match;
use crate::pattern::regex_compiles;
use crate::pattern::regex_first_match;
use crate::text::after_last;
use crate::text::parse_u32;
use crate::text::parse_u32_spec;
use crate::text::remove_char;
use crate::text::without_char;
use crate::text::joined;
use crate::text::join_with;
use crate::text::last_piece;
use crate::text::views;

verus! {

/// A product as read from its page.
pub struct Product {
    /// The key it is stored under, made by `build_uid`.
    pub uid: String,
    pub category: String,
    pub sub_category: String,
    pub name: String,
    /// The path of the product page.
    pub origin: String,
    /// The price as the page writes it, without the `$` signs; the cost is
    /// the number this text reads as (zero when it reads as none).
    pub price: String,
    pub description: String,
    pub colors: Vec<String>,
    pub sizes: Vec<String>,
    pub review_count: u32,
    pub review_stars: u32,
}

/// A product as plain values.
pub struct ProductView {
    pub uid: Seq<char>,
    pub category: Seq<char>,
    pub sub_category: Seq<char>,
    pub name: Seq<char>,
    pub origin: Seq<char>,
    pub price: Seq<char>,
    pub description: Seq<char>,
    pub colors: Seq<Seq<char>>,
    pub sizes: Seq<Seq<char>>,
    pub review_count: u32,
    pub review_stars: u32,
}

impl View for Product {
    type V = ProductView;

    open spec fn view(&self) -> ProductView {
        ProductView {
            uid: self.uid@,
            category: self.category@,
            sub_category: self.sub_category@,
            name: self.name@,
            origin: self.origin@,
            price: self.price@,
            description: self.description@,
            colors: views(self.colors@),
            sizes: views(self.sizes@),
            review_count: self.review_count,
            review_stars: self.review_stars,
        }
    }
}

/// A product with nothing read yet.
pub open spec fn empty_product() -> ProductView {
    ProductView {
        uid: Seq::empty(),
        category: Seq::empty(),
        sub_category: Seq::empty(),
        name: Seq::empty(),
        origin: Seq::empty(),
        price: Seq::empty(),
        description: Seq::empty(),
        colors: Seq::empty(),
        sizes: Seq::empty(),
        review_count: 0,
        review_stars: 0,
    }
}

impl Default for Product {
    fn default() -> (p: Product)
        ensures
            p@ == empty_product(),
    {
        let p = Product {
            uid: String::new(),
            category: String::new(),
            sub_category: String::new(),
            name: String::new(),
            origin: String::new(),
            price: String::new(),
            description: String::new(),
            colors: Vec::new(),
            sizes: Vec::new(),
            review_count: 0,
            review_stars: 0,
        };
        assert(p@.colors =~= Seq::<Seq<char>>::empty());
        assert(p@.sizes =~= Seq::<Seq<char>>::empty());
        p
    }
}

/// A copy of a vector of strings.
pub fn copy_strings(v: &Vec<String>) -> (r: Vec<String>)
    ensures
        r@ == v@,
{
    let mut r: Vec<String> = Vec::new();
    let mut i: usize = 0;
    while i < v.len()
        invariant
            i <= v@.len(),
            r@ == v@.take(i as int),
        decreases v@.len() - i,
    {
        r.push(v[i].clone());
        assert(r@ =~= v@.take(i + 1));
        i = i + 1;
    }
    assert(v@.take(v@.len() as int) =~= v@);
    r
}

/// `p` with the colors and sizes given.
pub open spec fn with_options(p: ProductView, colors: Seq<Seq<char>>, sizes: Seq<Seq<char>>) -> ProductView {
    ProductView { colors, sizes, ..p }
}

/// The variants a product is stored as: one for each pair of a color and a
/// size (colors in the outer order), or one for each color or each size
/// when it has only these; each variant has the one color and size it stands
/// for, and all else of the product.
pub open spec fn variants(p: ProductView) -> Seq<ProductView> {
    let c = p.colors.len();
    let s = p.sizes.len();
    if c == 0 {
        Seq::new(s, |j: int| with_options(p, p.colors, seq![p.sizes[j]]))
    } else if s == 0 {
        Seq::new(c, |i: int| with_options(p, seq![p.colors[i]], p.sizes))
    } else {
        Seq::new(
            c * s,
            |k: int| with_options(p, seq![p.colors[k / (s as int)]], seq![p.sizes[k % (s as int)]]),
        )
    }
}

/// The key of a product: the last piece of its path, then its first color,
/// then its first size, with `-` between those it has.
pub open spec fn uid_of(p: ProductView) -> Seq<char> {
    let id = after_last(p.origin, '/');
    if p.colors.len() == 0 {
        id + "-"@ + p.sizes[0]
    } else if p.sizes.len() == 0 {
        id + "-"@ + p.colors[0]
    } else {
        id + "-"@ + p.colors[0] + "-"@ + p.sizes[0]
    }
}

/// The values one stored product row holds.
pub struct ProductRow {
    pub uid: String,
    pub category: String,
    pub sub_category: String,
    pub name: String,
    pub origin: String,
    pub price: String,
    pub description: String,
    /// The colors, joined with spaces.
    pub color: String,
    /// The sizes, joined with spaces.
    pub size: String,
    pub review_count: u32,
    pub review_stars: u32,
}

impl Product {
    /// A copy of the product.
    pub fn duplicate(&self) -> (r: Product)
        ensures
            r@ == self@,
    {
        Product {
            uid: self.uid.clone(),
            category: self.category.clone(),
            sub_category: self.sub_category.clone(),
            name: self.name.clone(),
            origin: self.origin.clone(),
            price: self.price.clone(),
            description: self.description.clone(),
            colors: copy_strings(&self.colors),
            sizes: copy_strings(&self.sizes),
            review_count: self.review_count,
            review_stars: self.review_stars,
        }
    }

    /// The variants that the product is stored as.
    pub fn generate_variants(product: Product) -> (r: Vec<Product>)
        requires
            product.colors@.len() > 0 || product.sizes@.len() > 0,
        ensures
            r@.map_values(|v: Product| v@) == variants(product@),
    {
        let ghost p = product@;
        let mut r: Vec<Product> = Vec::new();
        let nc = product.colors.len();
        let ns = product.sizes.len();
        if nc == 0 {
            let mut j: usize = 0;
            while j < ns
                invariant
                    j <= ns == p.sizes.len(),
                    nc == p.colors.len() == 0,
                    p == product@,
                    r@.len() == j,
                    r@.map_values(|v: Product| v@) == variants(p).take(j as int),
                decreases ns - j,
            {
                let mut v = product.duplicate();
                v.sizes = vec![product.sizes[j].clone()];
                assert(v@.sizes =~= seq![p.sizes[j as int]]);
                assert(v@ == variants(p)[j as int]);
                r.push(v);
                assert(r@.map_values(|v: Product| v@) =~= variants(p).take(j + 1));
                j = j + 1;
            }
            assert(variants(p).take(ns as int) =~= variants(p));
        } else if ns == 0 {
            let mut i: usize = 0;
            while i < nc
                invariant
                    i <= nc == p.colors.len(),
                    ns == p.sizes.len() == 0,
                    p == product@,
                    r@.len() == i,
                    r@.map_values(|v: Product| v@) == variants(p).take(i as int),
                decreases nc - i,
            {
                let mut v = product.duplicate();
                v.colors = vec![product.colors[i].clone()];
                assert(v@.colors =~= seq![p.colors[i as int]]);
                assert(v@ == variants(p)[i as int]);
                r.push(v);
                assert(r@.map_values(|v: Product| v@) =~= variants(p).take(i + 1));
                i = i + 1;
            }
            assert(variants(p).take(nc as int) =~= variants(p));
        } else {
            let mut i: usize = 0;
            while i < nc
                invariant
                    i <= nc == p.colors.len(),
                    0 < ns == p.sizes.len(),
                    p == product@,
                    r@.len() == i * ns,
                    r@.map_values(|v: Product| v@) == variants(p).take(i * ns),
                decreases nc - i,
            {
                let mut j: usize = 0;
                while j < ns
                    invariant
                        i < nc == p.colors.len(),
                        j <= ns == p.sizes.len(),
                        0 < ns,
                        p == product@,
                        r@.len() == i * ns + j,
                        r@.map_values(|v: Product| v@) == variants(p).take(i * ns + j),
                    decreases ns - j,
                {
                    proof {
                        assert((i + 1) * ns <= nc * ns) by (nonlinear_arith)
                            requires
                                i < nc,
                        ;
                        assert(i * ns + j < nc * ns) by (nonlinear_arith)
                            requires
                                i < nc,
                                j < ns,
                        ;
                        lemma_fundamental_div_mod_converse(i * ns + j, ns as int, i as int, j as int);
                    }
                    let mut v = product.duplicate();
                    v.colors = vec![product.colors[i].clone()];
                    v.sizes = vec![product.sizes[j].clone()];
                    assert(v@.colors =~= seq![p.colors[i as int]]);
                    assert(v@.sizes =~= seq![p.sizes[j as int]]);
                    assert(v@ == variants(p)[i * ns + j]);
                    r.push(v);
                    assert(r@.map_values(|v: Product| v@) =~= variants(p).take(i * ns + j + 1));
                    j = j + 1;
                }
                assert(i * ns + ns == (i + 1) * ns) by (nonlinear_arith);
                i = i + 1;
            }
            assert(variants(p).take(nc * ns) =~= variants(p));
        }
        r
    }

    /// Sets the key of the product from its path, its first color and its
    /// first size.
    pub fn build_uid(&mut self)
        requires
            old(self).colors@.len() > 0 || old(self).sizes@.len() > 0,
        ensures
            final(self)@ == (ProductView { uid: uid_of(old(self)@), ..old(self)@ }),
    {
        let source_id = last_piece(self.origin.as_str(), '/');
        let mut uid = source_id;
        uid.append("-");
        if self.colors.len() == 0 {
            uid.append(self.sizes[0].as_str());
        } else if self.sizes.len() == 0 {
            uid.append(self.colors[0].as_str());
        } else {
            uid.append(self.colors[0].as_str());
            uid.append("-");
            uid.append(self.sizes[0].as_str());
        }
        self.uid = uid;
    }

    /// The values the product is stored with: its fields, with the colors and
    /// the sizes each joined with spaces.
    pub fn row(&self) -> (r: ProductRow)
        ensures
            r.uid@ == self.uid@,
            r.category@ == self.category@,
            r.sub_category@ == self.sub_category@,
            r.name@ == self.name@,
            r.origin@ == self.origin@,
            r.price@ == self.price@,
            r.description@ == self.description@,
            r.color@ == joined(self@.colors, " "@),
            r.size@ == joined(self@.sizes, " "@),
            r.review_count == self.review_count,
            r.review_stars == self.review_stars,
    {
        ProductRow {
            uid: self.uid.clone(),
            category: self.category.clone(),
            sub_category: self.sub_category.clone(),
            name: self.name.clone(),
            origin: self.origin.clone(),
            price: self.price.clone(),
            description: self.description.clone(),
            color: join_with(&self.colors, " "),
            size: join_with(&self.sizes, " "),
            review_count: self.review_count,
            review_stars: self.review_stars,
        }
    }
}


/// Why a product page could not be read.
#[derive(Debug, PartialEq, Eq, Structural)]
pub enum ParseError {
    /// The page has no `div.caption`.
    CaptionNotFound,
    /// The page has no `.thumbnail` inside a `div.row`.
    ThumbnailNotFound,
    /// The pattern of the review count did not compile.
    InvalidPattern,
}

impl ParseError {
    /// The message that describes the error.
    pub fn message(&self) -> (r: String)
        ensures
            r@ == match self {
                ParseError::CaptionNotFound => "Div caption not found"@,
                ParseError::ThumbnailNotFound => "Div thumbnail not found"@,
                ParseError::InvalidPattern => "Invalid review count pattern"@,
            },
    {
        match self {
            ParseError::CaptionNotFound => String::from_str("Div caption not found"),
            ParseError::ThumbnailNotFound => String::from_str("Div thumbnail not found"),
            ParseError::InvalidPattern => String::from_str("Invalid review count pattern"),
        }
    }
}

/// `Name(a)` and `Class(b)`.
pub open spec fn named_with_class(name: Seq<char>, class: Seq<char>) -> QueryView {
    QueryView::And(Box::new(QueryView::Name(name)), Box::new(QueryView::Class(class)))
}

/// `div.caption`: the block with the name, price and description.
pub open spec fn caption_block() -> QueryView {
    named_with_class("div"@, "caption"@)
}

/// `h4` without a class: the name of the product.
pub open spec fn title_heading() -> QueryView {
    QueryView::And(
        Box::new(QueryView::Name("h4"@)),
        Box::new(QueryView::Not(Box::new(QueryView::HasAttr("class"@)))),
    )
}

/// `h4.price`.
pub open spec fn price_heading() -> QueryView {
    named_with_class("h4"@, "price"@)
}

/// `p.description`.
pub open spec fn description_text() -> QueryView {
    named_with_class("p"@, "description"@)
}

/// `div.row .thumbnail`: the block with the options and the ratings.
pub open spec fn thumbnail_block() -> QueryView {
    QueryView::Descendant(
        Box::new(named_with_class("div"@, "row"@)),
        Box::new(QueryView::Class("thumbnail"@)),
    )
}

/// `select[aria-label=color] option`: the color choices.
pub open spec fn color_options() -> QueryView {
    QueryView::Descendant(
        Box::new(
            QueryView::And(
                Box::new(QueryView::Name("select"@)),
                Box::new(QueryView::Attr("aria-label"@, "color"@)),
            ),
        ),
        Box::new(QueryView::Name("option"@)),
    )
}

/// `div.swatches button:not([disabled])`: the size choices.
pub open spec fn size_buttons() -> QueryView {
    QueryView::Descendant(
        Box::new(named_with_class("div"@, "swatches"@)),
        Box::new(
            QueryView::And(
                Box::new(QueryView::Name("button"@)),
                Box::new(QueryView::Not(Box::new(QueryView::HasAttr("disabled"@)))),
            ),
        ),
    )
}

/// `div.ratings p`: the review count line.
pub open spec fn rating_texts() -> QueryView {
    QueryView::Descendant(
        Box::new(named_with_class("div"@, "ratings"@)),
        Box::new(QueryView::Name("p"@)),
    )
}

/// `div.ratings span.glyphicon-star`: the stars.
pub open spec fn rating_stars() -> QueryView {
    QueryView::Descendant(
        Box::new(named_with_class("div"@, "ratings"@)),
        Box::new(named_with_class("span"@, "glyphicon-star"@)),
    )
}

/// The pattern of a run of digits.
pub open spec fn digit_run() -> Seq<char> {
    "\\d+"@
}

/// The text of the first node matching `q`, empty when none does.
pub open spec fn first_text(nodes: Seq<NodeView>, q: QueryView) -> Seq<char> {
    match first_of(find_all(nodes, q)) {
        Some(k) => nodes[k as int].text,
        None => Seq::empty(),
    }
}

/// The non-empty `value` attributes of the nodes `ids`, in order.
pub open spec fn option_values(nodes: Seq<NodeView>, ids: Seq<usize>) -> Seq<Seq<char>>
    decreases ids.len(),
{
    if ids.len() == 0 {
        Seq::empty()
    } else {
        let rest = option_values(nodes, ids.drop_last());
        match attr_of(nodes[ids.last() as int].attrs, "value"@) {
            Some(v) => if v.len() > 0 {
                rest.push(v)
            } else {
                rest
            },
            None => rest,
        }
    }
}

/// The texts of the nodes `ids`, one after the other.
pub open spec fn texts(nodes: Seq<NodeView>, ids: Seq<usize>) -> Seq<char>
    decreases ids.len(),
{
    if ids.len() == 0 {
        Seq::empty()
    } else {
        texts(nodes, ids.drop_last()) + nodes[ids.last() as int].text
    }
}

/// The review count that the match of the digit pattern gives: the match
/// read as a `u32`, zero when that does not fit; `old` when nothing matched.
pub open spec fn count_from(found: Option<Seq<char>>, old: u32) -> u32 {
    match found {
        Some(m) => match parse_u32_spec(m) {
            Some(v) => v,
            None => 0,
        },
        None => old,
    }
}

/// The review count that a line of text gives: its first run of digits,
/// as `count_from` reads it.
pub open spec fn review_count_in(line: Seq<char>, old: u32) -> u32 {
    count_from(regex_first_match(digit_run(), line), old)
}

/// What the caption block gives a product: its name, price text without the
/// `$` signs, and description.
pub open spec fn with_caption(p: ProductView, cap: Seq<NodeView>) -> ProductView {
    ProductView {
        name: first_text(cap, title_heading()),
        price: without_char(first_text(cap, price_heading()), '$'),
        description: first_text(cap, description_text()),
        ..p
    }
}

/// What the thumbnail block gives a product as its options: its colors and
/// sizes.
pub open spec fn with_frame_options(p: ProductView, frame: Seq<NodeView>) -> ProductView {
    ProductView {
        colors: option_values(frame, find_all(frame, color_options())),
        sizes: option_values(frame, find_all(frame, size_buttons())),
        ..p
    }
}

/// The review line of the thumbnail block: the texts of its rating
/// paragraphs, one after the other.
pub open spec fn review_line(frame: Seq<NodeView>) -> Seq<char> {
    texts(frame, find_all(frame, rating_texts()))
}

/// The number of stars in the thumbnail block, as a `u32`.
pub open spec fn star_count(frame: Seq<NodeView>) -> u32 {
    #[verifier::truncate] (find_all(frame, rating_stars()).len() as u32)
}

/// What reading the product page `res` makes of product `p`, and whether it
/// succeeds. The name, price and description come from the first
/// `div.caption`; the options and the ratings from the first `.thumbnail` in
/// a `div.row`. A failure keeps what was read before it.
pub open spec fn read_product(p: ProductView, res: Seq<char>) -> (ProductView, Result<(), ParseError>) {
    let doc = parsed(res);
    match first_of(find_all(doc, caption_block())) {
        None => (p, Err(ParseError::CaptionNotFound)),
        Some(ci) => {
            let p1 = with_caption(p, parsed(doc[ci as int].html));
            match first_of(find_all(doc, thumbnail_block())) {
                None => (p1, Err(ParseError::ThumbnailNotFound)),
                Some(fi) => {
                    let frame = parsed(doc[fi as int].html);
                    let p2 = with_frame_options(p1, frame);
                    if !regex_compiles(digit_run()) {
                        (p2, Err(ParseError::InvalidPattern))
                    } else {
                        (
                            ProductView {
                                review_count: review_count_in(review_line(frame), p2.review_count),
                                review_stars: star_count(frame),
                                ..p2
                            },
                            Ok(()),
                        )
                    }
                },
            }
        },
    }
}

/// The text of the first node of `doc` matching `q`, empty when none does.
fn first_text_of(doc: &HtmlDoc, q: &Query) -> (r: String)
    ensures
        r@ == first_text(doc@, q@),
{
    let ids = doc.find(q);
    if ids.len() == 0 {
        String::new()
    } else {
        doc.node(ids[0]).text.clone()
    }
}

/// The non-empty `value` attributes of the nodes `ids` of `doc`.
fn option_values_of(doc: &HtmlDoc, ids: &Vec<usize>) -> (r: Vec<String>)
    requires
        forall|i: int| 0 <= i < ids@.len() ==> #[trigger] ids@[i] < doc@.len(),
    ensures
        views(r@) == option_values(doc@, ids@),
{
    let mut r: Vec<String> = Vec::new();
    let mut i: usize = 0;
    while i < ids.len()
        invariant
            i <= ids@.len(),
            forall|i: int| 0 <= i < ids@.len() ==> #[trigger] ids@[i] < doc@.len(),
            views(r@) == option_values(doc@, ids@.take(i as int)),
        decreases ids@.len() - i,
    {
        assert(ids@.take(i + 1).drop_last() =~= ids@.take(i as int));
        match doc.attr(ids[i], "value") {
            Some(v) => {
                if !v.as_str().is_empty() {
                    r.push(v);
                    assert(views(r@) =~= option_values(doc@, ids@.take(i as int)).push(v@));
                }
            },
            None => {},
        }
        i = i + 1;
    }
    assert(ids@.take(ids@.len() as int) =~= ids@);
    r
}


/// The texts of the nodes `ids` of `doc`, one after the other.
fn texts_of(doc: &HtmlDoc, ids: &Vec<usize>) -> (r: String)
    requires
        forall|i: int| 0 <= i < ids@.len() ==> #[trigger] ids@[i] < doc@.len(),
    ensures
        r@ == texts(doc@, ids@),
{
    let mut r = String::new();
    let mut i: usize = 0;
    while i < ids.len()
        invariant
            i <= ids@.len(),
            forall|i: int| 0 <= i < ids@.len() ==> #[trigger] ids@[i] < doc@.len(),
            r@ == texts(doc@, ids@.take(i as int)),
        decreases ids@.len() - i,
    {
        assert(ids@.take(i + 1).drop_last() =~= ids@.take(i as int));
        r.append(doc.node(ids[i]).text.as_str());
        i = i + 1;
    }
    assert(ids@.take(ids@.len() as int) =~= ids@);
    r
}

impl Product {
    /// Takes the name, the price text (without `$` signs) and the
    /// description from the caption block `caption`.
    pub fn read_caption(&mut self, caption: &HtmlDoc)
        ensures
            final(self)@ == with_caption(old(self)@, caption@),
    {
        self.name = first_text_of(caption, &Query::name("h4").and(Query::has_attr("class").not()));
        let price = first_text_of(caption, &Query::name("h4").and(Query::class("price")));
        self.price = remove_char(price.as_str(), '$');
        self.description = first_text_of(
            caption,
            &Query::name("p").and(Query::class("description")),
        );
    }

    /// Takes the colors and the sizes from the thumbnail block `frame`.
    pub fn read_options(&mut self, frame: &HtmlDoc)
        ensures
            final(self)@ == with_frame_options(old(self)@, frame@),
    {
        let colors = frame.find(
            &Query::name("select").and(Query::attr("aria-label", "color")).descendant(
                Query::name("option"),
            ),
        );
        self.colors = option_values_of(frame, &colors);
        let sizes = frame.find(
            &Query::name("div").and(Query::class("swatches")).descendant(
                Query::name("button").and(Query::has_attr("disabled").not()),
            ),
        );
        self.sizes = option_values_of(frame, &sizes);
    }

    /// Reads the product page `res` into the product: name, price,
    /// description, colors, sizes, review count and stars.
    pub fn parse_html(&mut self, res: &String) -> (r: Result<(), ParseError>)
        ensures
            (final(self)@, r) == read_product(old(self)@, res@),
    {
        let doc = HtmlDoc::parse(res.as_str());
        let captions = doc.find(&Query::name("div").and(Query::class("caption")));
        if captions.len() == 0 {
            return Err(ParseError::CaptionNotFound);
        }
        let caption = HtmlDoc::parse(doc.node(captions[0]).html.as_str());
        self.read_caption(&caption);
        let frames = doc.find(
            &Query::name("div").and(Query::class("row")).descendant(Query::class("thumbnail")),
        );
        if frames.len() == 0 {
            return Err(ParseError::ThumbnailNotFound);
        }
        let frame = HtmlDoc::parse(doc.node(frames[0]).html.as_str());
        self.read_options(&frame);
        let review_count_raw = review_line_of(&frame);
        let re = match compile("\\d+") {
            Ok(re) => re,
            Err(_) => {
                return Err(ParseError::InvalidPattern);
            },
        };
        self.review_count = count_from_match(first_match(&re, review_count_raw.as_str()), self.review_count);
        self.review_stars = stars_of(&frame);
        Ok(())
    }
}

/// The review count that the match `found` of the digit pattern gives; `old`
/// when nothing matched.
pub fn count_from_match(found: Option<String>, old: u32) -> (r: u32)
    ensures
        r == count_from(opt_view(found), old),
{
    match found {
        Some(m) => match parse_u32(m.as_str()) {
            Some(v) => v,
            None => 0,
        },
        None => old,
    }
}

/// The review line of the thumbnail block `frame`.
pub fn review_line_of(frame: &HtmlDoc) -> (r: String)
    ensures
        r@ == review_line(frame@),
{
    let lines = frame.find(
        &Query::name("div").and(Query::class("ratings")).descendant(Query::name("p")),
    );
    texts_of(frame, &lines)
}

/// The number of stars in the thumbnail block `frame`.
pub fn stars_of(frame: &HtmlDoc) -> (r: u32)
    ensures
        r == star_count(frame@),
{
    let stars = frame.find(
        &Query::name("div").and(Query::class("ratings")).descendant(
            Query::name("span").and(Query::class("glyphicon-star")),
        ),
    );
    #[verifier::truncate] (stars.len() as u32)
}

/// A product with its sub-category and path, before its page is read.
pub open spec fn product_at(uri: Seq<char>, category: Seq<char>, sub_category: Seq<char>) -> ProductView {
    ProductView { category, sub_category, origin: uri, ..empty_product() }
}

/// Reads the product at `uri` from its page `res`.
pub fn get_product(uri: &String, category: &String, sub_category: &String, res: &String) -> (r:
    Result<Product, ParseError>)
    ensures
        ({
            let (p, outcome) = read_product(product_at(uri@, category@, sub_category@), res@);
            match r {
                Ok(q) => outcome is Ok && q@ == p,
                Err(e) => outcome == Err::<(), ParseError>(e),
            }
        }),
{
    let mut product = Product::default();
    product.category = category.clone();
    product.sub_category = sub_category.clone();
    product.origin = uri.clone();
    match product.parse_html(res) {
        Ok(()) => Ok(product),
        Err(e) => Err(e),
    }
}


/// A product with colors and sizes is stored as one variant for each pair
/// of a color and a size, colors in the outer order: the variant for color
/// `i` and size `j` stands at `i * sizes + j`, has that one color and that
/// one size, and all else of the product.
pub proof fn lemma_variants_pair_options(p: ProductView, i: int, j: int)
    requires
        0 <= i < p.colors.len(),
        0 <= j < p.sizes.len(),
    ensures
        variants(p).len() == p.colors.len() * p.sizes.len(),
        0 <= i * p.sizes.len() + j < variants(p).len(),
        variants(p)[i * p.sizes.len() + j] == (ProductView {
            colors: seq![p.colors[i]],
            sizes: seq![p.sizes[j]],
            ..p
        }),
{
    let s = p.sizes.len() as int;
    let c = p.colors.len() as int;
    assert(0 <= i * s + j < c * s) by (nonlinear_arith)
        requires
            0 <= i < c,
            0 <= j < s,
    ;
    lemma_fundamental_div_mod_converse(i * s + j, s, i, j);
}

/// Every variant of a product differs from it only in its colors and sizes,
/// and holds at most one of each: one color when the product has colors,
/// one size when it has sizes.
pub proof fn lemma_variant_differs_in_options(p: ProductView, k: int)
    requires
        p.colors.len() > 0 || p.sizes.len() > 0,
        0 <= k < variants(p).len(),
    ensures
        variants(p)[k] == with_options(p, variants(p)[k].colors, variants(p)[k].sizes),
        variants(p)[k].colors.len() == if p.colors.len() > 0 { 1int } else { 0int },
        variants(p)[k].sizes.len() == if p.sizes.len() > 0 { 1int } else { 0int },
{
    let s = p.sizes.len() as int;
    let c = p.colors.len() as int;
    if c > 0 && s > 0 {
        assert(0 <= k / s < c && 0 <= k % s < s) by (nonlinear_arith)
            requires
                0 <= k < c * s,
                s > 0,
        ;
    }
}

/// The key of the variant for color `i` and size `j` is the last piece of
/// the product's path, the color and the size, joined by `-`.
pub proof fn lemma_variant_uid(p: ProductView, i: int, j: int)
    requires
        0 <= i < p.colors.len(),
        0 <= j < p.sizes.len(),
    ensures
        uid_of(variants(p)[i * p.sizes.len() + j]) == after_last(p.origin, '/') + "-"@ + p.colors[i]
            + "-"@ + p.sizes[j],
{
    lemma_variants_pair_options(p, i, j);
}


/// No value holds a `-`.
pub open spec fn dash_free(values: Seq<Seq<char>>) -> bool {
    forall|i: int, j: int| 0 <= i < values.len() && 0 <= j < values[i].len() ==> #[trigger] values[i][j] != '-'
}

/// Two values joined by `-`, neither first value holding a `-`, are equal
/// only when both parts are.
proof fn lemma_dash_join_injective(a1: Seq<char>, b1: Seq<char>, a2: Seq<char>, b2: Seq<char>)
    requires
        forall|j: int| 0 <= j < a1.len() ==> #[trigger] a1[j] != '-',
        forall|j: int| 0 <= j < a2.len() ==> #[trigger] a2[j] != '-',
        a1 + "-"@ + b1 == a2 + "-"@ + b2,
    ensures
        a1 == a2,
        b1 == b2,
{
    reveal_strlit("-");
    let x = a1 + "-"@ + b1;
    let y = a2 + "-"@ + b2;
    if a1.len() < a2.len() {
        assert(x[a1.len() as int] == '-');
        assert(y[a1.len() as int] == a2[a1.len() as int]);
    } else if a2.len() < a1.len() {
        assert(y[a2.len() as int] == '-');
        assert(x[a2.len() as int] == a1[a2.len() as int]);
    }
    assert(a1 =~= x.take(a1.len() as int));
    assert(a2 =~= y.take(a2.len() as int));
    assert(b1 =~= x.skip(a1.len() as int + 1));
    assert(b2 =~= y.skip(a2.len() as int + 1));
}

/// Values after the same prefix are equal when the wholes are.
proof fn lemma_after_prefix(pre: Seq<char>, u: Seq<char>, w: Seq<char>)
    requires
        pre + u == pre + w,
    ensures
        u == w,
{
    assert(u =~= (pre + u).skip(pre.len() as int));
    assert(w =~= (pre + w).skip(pre.len() as int));
}

/// The keys that `build_uid` gives the variants of a product are pairwise
/// distinct, when its colors and its sizes each hold no value twice and no
/// value holds a `-`.
pub proof fn lemma_variant_uids_distinct(p: ProductView, k1: int, k2: int)
    requires
        p.colors.len() > 0 || p.sizes.len() > 0,
        p.colors.no_duplicates(),
        p.sizes.no_duplicates(),
        dash_free(p.colors),
        dash_free(p.sizes),
        0 <= k1 < variants(p).len(),
        0 <= k2 < variants(p).len(),
        k1 != k2,
    ensures
        uid_of(variants(p)[k1]) != uid_of(variants(p)[k2]),
{
    let c = p.colors.len() as int;
    let s = p.sizes.len() as int;
    let id = after_last(p.origin, '/');
    let pre = id + "-"@;
    let v1 = variants(p)[k1];
    let v2 = variants(p)[k2];
    if uid_of(v1) == uid_of(v2) {
        if c == 0 {
            assert(uid_of(v1) == pre + p.sizes[k1]);
            assert(uid_of(v2) == pre + p.sizes[k2]);
            lemma_after_prefix(pre, p.sizes[k1], p.sizes[k2]);
        } else if s == 0 {
            assert(uid_of(v1) == pre + p.colors[k1]);
            assert(uid_of(v2) == pre + p.colors[k2]);
            lemma_after_prefix(pre, p.colors[k1], p.colors[k2]);
        } else {
            let i1 = k1 / s;
            let j1 = k1 % s;
            let i2 = k2 / s;
            let j2 = k2 % s;
            assert(0 <= i1 < c && 0 <= j1 < s && 0 <= i2 < c && 0 <= j2 < s) by (nonlinear_arith)
                requires
                    0 <= k1 < c * s,
                    0 <= k2 < c * s,
                    s > 0,
                    i1 == k1 / s,
                    j1 == k1 % s,
                    i2 == k2 / s,
                    j2 == k2 % s,
            ;
            let col1 = p.colors[i1];
            let col2 = p.colors[i2];
            let sz1 = p.sizes[j1];
            let sz2 = p.sizes[j2];
            assert(uid_of(v1) =~= pre + (col1 + "-"@ + sz1));
            assert(uid_of(v2) =~= pre + (col2 + "-"@ + sz2));
            lemma_after_prefix(pre, col1 + "-"@ + sz1, col2 + "-"@ + sz2);
            assert forall|j: int| 0 <= j < col1.len() implies #[trigger] col1[j] != '-' by {
                assert(p.colors[i1][j] != '-');
            }
            assert forall|j: int| 0 <= j < col2.len() implies #[trigger] col2[j] != '-' by {
                assert(p.colors[i2][j] != '-');
            }
            lemma_dash_join_injective(col1, sz1, col2, sz2);
            assert(i1 == i2);
            assert(j1 == j2);
            lemma_fundamental_div_mod(k1, s);
            lemma_fundamental_div_mod(k2, s);
        }
    }
}


/// A product with sizes and no colors is stored as one variant for each
/// size, in order: variant `j` holds exactly the size `sizes[j]`, no color,
/// and all else of the product.
pub proof fn lemma_variants_sizes_only(p: ProductView, j: int)
    requires
        p.colors.len() == 0,
        0 <= j < p.sizes.len(),
    ensures
        variants(p).len() == p.sizes.len(),
        variants(p)[j] == (ProductView { colors: Seq::<Seq<char>>::empty(), sizes: seq![p.sizes[j]], ..p }),
{
    assert(p.colors =~= Seq::<Seq<char>>::empty());
}

/// A product with colors and no sizes is stored as one variant for each
/// color, in order: variant `i` holds exactly the color `colors[i]`, no size,
/// and all else of the product.
pub proof fn lemma_variants_colors_only(p: ProductView, i: int)
    requires
        p.sizes.len() == 0,
        0 <= i < p.colors.len(),
    ensures
        variants(p).len() == p.colors.len(),
        variants(p)[i] == (ProductView { colors: seq![p.colors[i]], sizes: Seq::<Seq<char>>::empty(), ..p }),
{
    assert(p.sizes =~= Seq::<Seq<char>>::empty());
}

/// The last piece of `s` after `c` is what follows the last `c` of `s`: `s`
/// is some prefix, empty or ending in `c`, followed by it, and it holds no
/// `c`.
pub proof fn lemma_after_last_is_last_piece(s: Seq<char>, c: char)
    ensures
        exists|pre: Seq<char>|
            s == pre + after_last(s, c) && (pre.len() == 0 || pre.last() == c),
        forall|j: int| 0 <= j < after_last(s, c).len() ==> #[trigger] after_last(s, c)[j] != c,
    decreases s.len(),
{
    if s.len() == 0 {
        assert(s == Seq::<char>::empty() + after_last(s, c));
    } else if s.last() == c {
        assert(s == s + after_last(s, c));
    } else {
        let t = s.drop_last();
        lemma_after_last_is_last_piece(t, c);
        let pre = choose|pre: Seq<char>| t == pre + after_last(t, c) && (pre.len() == 0 || pre.last() == c);
        assert(after_last(s, c) == after_last(t, c).push(s.last()));
        assert(s =~= t.push(s.last()));
        assert(s =~= pre + after_last(s, c));
        let a = after_last(s, c);
        assert forall|j: int| 0 <= j < a.len() implies #[trigger] a[j] != c by {
            if j < a.len() - 1 {
                assert(a[j] == after_last(t, c)[j]);
            }
        }
    }
}

/// The key of a product: the last piece of its path after `/`, then `-`
/// and the first color when it has colors, then `-` and the first size when
/// it has sizes.
pub proof fn lemma_uid_parts(p: ProductView)
    requires
        p.colors.len() > 0 || p.sizes.len() > 0,
    ensures
        p.colors.len() > 0 && p.sizes.len() == 0 ==> uid_of(p) == after_last(p.origin, '/') + "-"@
            + p.colors[0],
        p.colors.len() == 0 && p.sizes.len() > 0 ==> uid_of(p) == after_last(p.origin, '/') + "-"@
            + p.sizes[0],
        p.colors.len() > 0 && p.sizes.len() > 0 ==> uid_of(p) == after_last(p.origin, '/') + "-"@
            + p.colors[0] + "-"@ + p.sizes[0],
{
}


/// The `value` of node `k` when it has a non-empty one.
pub open spec fn nonempty_value(nodes: Seq<NodeView>, k: usize) -> Option<Seq<char>> {
    match attr_of(nodes[k as int].attrs, "value"@) {
        Some(v) => if v.len() > 0 {
            Some(v)
        } else {
            None
        },
        None => None,
    }
}

/// The option values are the non-empty `value` attributes of the nodes, in
/// order, one for each node that has one: the nodes mapped to them, the
/// others dropped.
pub proof fn lemma_option_values_keep_nonempty(nodes: Seq<NodeView>, ids: Seq<usize>)
    ensures
        option_values(nodes, ids) == ids.filter_map(|k: usize| nonempty_value(nodes, k)),
        forall|i: int| 0 <= i < option_values(nodes, ids).len() ==> #[trigger] option_values(nodes, ids)[i].len() > 0,
    decreases ids.len(),
{
    if ids.len() > 0 {
        lemma_option_values_keep_nonempty(nodes, ids.drop_last());
        let rest = option_values(nodes, ids.drop_last());
        match nonempty_value(nodes, ids.last()) {
            Some(v) => {
                assert(rest.push(v) =~= rest + seq![v]);
            },
            None => {},
        }
    }
}

} // verus!
