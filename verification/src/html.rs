//! HTML documents as flat node tables, and queries over them.
//!
//! The `select` crate parses the markup; the library reads each node of the
//! parsed document (its element name, attributes, parent, text and markup)
//! into a table of plain values, and evaluates queries on that table.

use vstd::prelude::*;
use select::document::Document;
use crate::text::has_token;
use crate::text::contains_token;

verus! {

#[verifier::external_type_specification]
#[verifier::external_body]
pub struct ExDocument(select::document::Document);

/// Number of nodes that `select::document::Document::from` makes of `source`.
pub uninterp spec fn html_node_count(source: Seq<char>) -> nat;

/// `Node::name` of the node at `index` of the document parsed from `source`.
pub uninterp spec fn html_node_name(source: Seq<char>, index: usize) -> Option<Seq<char>>;

/// `Node::attrs` (local name and value, in order) of the node at `index`.
pub uninterp spec fn html_node_attrs(source: Seq<char>, index: usize) -> Seq<(Seq<char>, Seq<char>)>;

/// The index of the parent (`Node::parent`) of the node at `index`.
pub uninterp spec fn html_node_parent(source: Seq<char>, index: usize) -> Option<usize>;

/// `Node::text` of the node at `index`.
pub uninterp spec fn html_node_text(source: Seq<char>, index: usize) -> Seq<char>;

/// `Node::html` of the node at `index`.
pub uninterp spec fn html_node_html(source: Seq<char>, index: usize) -> Seq<char>;

/// A document parsed by `select`, with the markup it was parsed from.
pub struct ParsedHtml {
    source: String,
    doc: Document,
}

/// Parses `html` with `select::document::Document::from` (html5ever).
/// Claims only that the markup kept beside the document is `html`.
#[verifier::external_body]
fn parse_document(html: &str) -> (r: ParsedHtml)
    ensures
        r.source@ == html@,
{
    ParsedHtml { source: html.to_string(), doc: Document::from(html) }
}

/// The number of nodes of the parsed document (the length of
/// `Document::nodes`).
#[verifier::external_body]
fn node_count(p: &ParsedHtml) -> (r: usize)
    ensures
        r == html_node_count(p.source@),
{
    p.doc.nodes.len()
}

/// `Node::name` of node `index`, as an owned string.
#[verifier::external_body]
fn node_name(p: &ParsedHtml, index: usize) -> (r: Option<String>)
    requires
        index < html_node_count(p.source@),
    ensures
        opt_view(r) == html_node_name(p.source@, index),
{
    p.doc.nth(index).unwrap().name().map(|s| s.to_string())
}

/// `Node::attrs` of node `index`, as owned name/value pairs.
#[verifier::external_body]
fn node_attrs(p: &ParsedHtml, index: usize) -> (r: Vec<(String, String)>)
    requires
        index < html_node_count(p.source@),
    ensures
        pair_views(r@) == html_node_attrs(p.source@, index),
{
    p.doc.nth(index).unwrap().attrs().map(|(k, v)| (k.to_string(), v.to_string())).collect()
}

/// `Node::parent` of node `index`, by its index. The document is built by
/// appending each element before its children, so a parent always stands
/// before its child.
#[verifier::external_body]
fn node_parent(p: &ParsedHtml, index: usize) -> (r: Option<usize>)
    requires
        index < html_node_count(p.source@),
    ensures
        r == html_node_parent(p.source@, index),
        r matches Some(q) ==> q < index,
{
    p.doc.nth(index).unwrap().parent().map(|n| n.index())
}

/// `Node::text` of node `index`: the text of the node and its descendants.
#[verifier::external_body]
fn node_text(p: &ParsedHtml, index: usize) -> (r: String)
    requires
        index < html_node_count(p.source@),
    ensures
        r@ == html_node_text(p.source@, index),
{
    p.doc.nth(index).unwrap().text()
}

/// `Node::html` of node `index`: the node serialized as markup.
#[verifier::external_body]
fn node_html(p: &ParsedHtml, index: usize) -> (r: String)
    requires
        index < html_node_count(p.source@),
    ensures
        r@ == html_node_html(p.source@, index),
{
    p.doc.nth(index).unwrap().html()
}

/// The view of an optional string.
pub open spec fn opt_view(o: Option<String>) -> Option<Seq<char>> {
    match o {
        Some(s) => Some(s@),
        None => None,
    }
}

/// The views of name/value pairs.
pub open spec fn pair_views(v: Seq<(String, String)>) -> Seq<(Seq<char>, Seq<char>)> {
    v.map_values(|p: (String, String)| (p.0@, p.1@))
}

/// One node of a parsed document.
pub struct HtmlNode {
    /// The element name, `None` for text and comments.
    pub name: Option<String>,
    /// The attributes, local name and value, in document order.
    pub attrs: Vec<(String, String)>,
    /// The index of the parent node.
    pub parent: Option<usize>,
    /// The text of the node and its descendants.
    pub text: String,
    /// The node serialized as markup.
    pub html: String,
}

/// A node as plain values.
pub struct NodeView {
    pub name: Option<Seq<char>>,
    pub attrs: Seq<(Seq<char>, Seq<char>)>,
    pub parent: Option<usize>,
    pub text: Seq<char>,
    pub html: Seq<char>,
}

impl View for HtmlNode {
    type V = NodeView;

    open spec fn view(&self) -> NodeView {
        NodeView {
            name: opt_view(self.name),
            attrs: pair_views(self.attrs@),
            parent: self.parent,
            text: self.text@,
            html: self.html@,
        }
    }
}

/// The node table that `select` makes of `source`.
pub open spec fn parsed(source: Seq<char>) -> Seq<NodeView> {
    Seq::new(
        html_node_count(source),
        |i: int|
            NodeView {
                name: html_node_name(source, i as usize),
                attrs: html_node_attrs(source, i as usize),
                parent: html_node_parent(source, i as usize),
                text: html_node_text(source, i as usize),
                html: html_node_html(source, i as usize),
            },
    )
}

/// Every parent stands before its child.
pub open spec fn parents_first(nodes: Seq<NodeView>) -> bool {
    forall|i: int|
        0 <= i < nodes.len() ==> (#[trigger] nodes[i].parent matches Some(p) ==> p < i)
}

/// A parsed HTML document: its nodes in document order.
pub struct HtmlDoc {
    nodes: Vec<HtmlNode>,
}

impl View for HtmlDoc {
    type V = Seq<NodeView>;

    closed spec fn view(&self) -> Seq<NodeView> {
        self.nodes@.map_values(|n: HtmlNode| n@)
    }
}

impl HtmlDoc {
    #[verifier::type_invariant]
    closed spec fn parents_come_first(self) -> bool {
        parents_first(self@)
    }

    /// Parses `html` into its node table.
    pub fn parse(html: &str) -> (d: HtmlDoc)
        ensures
            d@ == parsed(html@),
    {
        let p = parse_document(html);
        let n = node_count(&p);
        let mut nodes: Vec<HtmlNode> = Vec::new();
        let mut i: usize = 0;
        while i < n
            invariant
                i <= n == html_node_count(p.source@),
                p.source@ == html@,
                nodes@.len() == i,
                forall|j: int| 0 <= j < i ==> #[trigger] nodes@[j]@ == parsed(html@)[j],
                parents_first(nodes@.map_values(|x: HtmlNode| x@)),
            decreases n - i,
        {
            let node = HtmlNode {
                name: node_name(&p, i),
                attrs: node_attrs(&p, i),
                parent: node_parent(&p, i),
                text: node_text(&p, i),
                html: node_html(&p, i),
            };
            let ghost before = nodes@.map_values(|x: HtmlNode| x@);
            nodes.push(node);
            proof {
                let after = nodes@.map_values(|x: HtmlNode| x@);
                assert forall|j: int| 0 <= j < after.len() implies (#[trigger] after[j].parent matches Some(q) ==> q < j) by {
                    if j < i {
                        assert(after[j] == before[j]);
                    }
                }
            }
            i = i + 1;
        }
        let d = HtmlDoc { nodes };
        assert(d@ =~= parsed(html@));
        d
    }

    /// A document of the given nodes, when every parent stands before its
    /// child.
    pub fn from_nodes(nodes: Vec<HtmlNode>) -> (r: Option<HtmlDoc>)
        ensures
            r is Some <==> parents_first(nodes@.map_values(|x: HtmlNode| x@)),
            r matches Some(d) ==> d@ == nodes@.map_values(|x: HtmlNode| x@),
    {
        let ghost all = nodes@.map_values(|x: HtmlNode| x@);
        let mut i: usize = 0;
        while i < nodes.len()
            invariant
                i <= nodes@.len(),
                all == nodes@.map_values(|x: HtmlNode| x@),
                forall|j: int| 0 <= j < i ==> (#[trigger] all[j].parent matches Some(p) ==> p < j),
            decreases nodes@.len() - i,
        {
            match nodes[i].parent {
                Some(p) => {
                    if p >= i {
                        assert(all[i as int].parent == Some(p));
                        return None;
                    }
                },
                None => {},
            }
            i = i + 1;
        }
        Some(HtmlDoc { nodes })
    }

    /// The number of nodes.
    pub fn len(&self) -> (r: usize)
        ensures
            r == self@.len(),
    {
        self.nodes.len()
    }

    /// The node at `i`.
    pub fn node(&self, i: usize) -> (r: &HtmlNode)
        requires
            i < self@.len(),
        ensures
            r@ == self@[i as int],
    {
        &self.nodes[i]
    }
}


/// A predicate on the nodes of a document, as `select::predicate` builds
/// them.
pub enum Query {
    /// An element with this name (`Name`).
    Name(String),
    /// An element whose `class` attribute holds this token (`Class`).
    Class(String),
    /// An element whose attribute has this value (`Attr(name, value)`).
    Attr(String, String),
    /// An element that has this attribute (`Attr(name, ())`).
    HasAttr(String),
    /// The inner query does not match (`Not`).
    Not(Box<Query>),
    /// Both queries match (`And`).
    And(Box<Query>, Box<Query>),
    /// The second query matches the node and the first matches one of its
    /// ancestors (`Descendant`).
    Descendant(Box<Query>, Box<Query>),
}

/// A query over plain values.
pub enum QueryView {
    Name(Seq<char>),
    Class(Seq<char>),
    Attr(Seq<char>, Seq<char>),
    HasAttr(Seq<char>),
    Not(Box<QueryView>),
    And(Box<QueryView>, Box<QueryView>),
    Descendant(Box<QueryView>, Box<QueryView>),
}

/// The plain-value form of a query.
pub open spec fn query_view(q: Query) -> QueryView
    decreases q,
{
    match q {
        Query::Name(n) => QueryView::Name(n@),
        Query::Class(c) => QueryView::Class(c@),
        Query::Attr(n, v) => QueryView::Attr(n@, v@),
        Query::HasAttr(n) => QueryView::HasAttr(n@),
        Query::Not(a) => QueryView::Not(Box::new(query_view(*a))),
        Query::And(a, b) => QueryView::And(Box::new(query_view(*a)), Box::new(query_view(*b))),
        Query::Descendant(a, b) => QueryView::Descendant(
            Box::new(query_view(*a)),
            Box::new(query_view(*b)),
        ),
    }
}

impl View for Query {
    type V = QueryView;

    open spec fn view(&self) -> QueryView {
        query_view(*self)
    }
}

impl Query {
    /// `Name(name)`.
    pub fn name(name: &str) -> (q: Query)
        ensures
            q@ == QueryView::Name(name@),
    {
        Query::Name(String::from_str(name))
    }

    /// `Class(class)`.
    pub fn class(class: &str) -> (q: Query)
        ensures
            q@ == QueryView::Class(class@),
    {
        Query::Class(String::from_str(class))
    }

    /// `Attr(name, value)`.
    pub fn attr(name: &str, value: &str) -> (q: Query)
        ensures
            q@ == QueryView::Attr(name@, value@),
    {
        Query::Attr(String::from_str(name), String::from_str(value))
    }

    /// `Attr(name, ())`.
    pub fn has_attr(name: &str) -> (q: Query)
        ensures
            q@ == QueryView::HasAttr(name@),
    {
        Query::HasAttr(String::from_str(name))
    }

    /// `Not(self)`.
    pub fn not(self) -> (q: Query)
        ensures
            q@ == QueryView::Not(Box::new(self@)),
    {
        Query::Not(Box::new(self))
    }

    /// `And(self, other)`.
    pub fn and(self, other: Query) -> (q: Query)
        ensures
            q@ == QueryView::And(Box::new(self@), Box::new(other@)),
    {
        Query::And(Box::new(self), Box::new(other))
    }

    /// `Descendant(self, inner)`: `inner` below a node matching `self`.
    pub fn descendant(self, inner: Query) -> (q: Query)
        ensures
            q@ == QueryView::Descendant(Box::new(self@), Box::new(inner@)),
    {
        Query::Descendant(Box::new(self), Box::new(inner))
    }
}

/// `Node::attr(name)`: the value of the first attribute so named.
pub open spec fn attr_of(attrs: Seq<(Seq<char>, Seq<char>)>, name: Seq<char>) -> Option<Seq<char>>
    decreases attrs.len(),
{
    if attrs.len() == 0 {
        None
    } else if attrs[0].0 == name {
        Some(attrs[0].1)
    } else {
        attr_of(attrs.drop_first(), name)
    }
}

/// Whether node `i` matches `q`.
pub open spec fn matches(nodes: Seq<NodeView>, i: nat, q: QueryView) -> bool
    decreases q, 0nat,
{
    match q {
        QueryView::Name(n) => nodes[i as int].name == Some(n),
        QueryView::Class(c) => match attr_of(nodes[i as int].attrs, "class"@) {
            Some(v) => has_token(v, c),
            None => false,
        },
        QueryView::Attr(n, v) => attr_of(nodes[i as int].attrs, n) == Some(v),
        QueryView::HasAttr(n) => attr_of(nodes[i as int].attrs, n) is Some,
        QueryView::Not(a) => !matches(nodes, i, *a),
        QueryView::And(a, b) => matches(nodes, i, *a) && matches(nodes, i, *b),
        QueryView::Descendant(a, b) => matches(nodes, i, *b) && ancestor_matches(nodes, i, *a),
    }
}

/// Whether some ancestor of node `i` matches `q`.
pub open spec fn ancestor_matches(nodes: Seq<NodeView>, i: nat, q: QueryView) -> bool
    decreases q, i + 1,
{
    match nodes[i as int].parent {
        Some(p) => p < i && (matches(nodes, p as nat, q) || ancestor_matches(nodes, p as nat, q)),
        None => false,
    }
}

/// The nodes before `n` that match `q`, in document order.
pub open spec fn find_upto(nodes: Seq<NodeView>, q: QueryView, n: nat) -> Seq<usize>
    decreases n,
{
    if n == 0 {
        Seq::empty()
    } else if matches(nodes, (n - 1) as nat, q) {
        find_upto(nodes, q, (n - 1) as nat).push((n - 1) as usize)
    } else {
        find_upto(nodes, q, (n - 1) as nat)
    }
}

/// `Document::find(q)`: all nodes that match `q`, in document order.
pub open spec fn find_all(nodes: Seq<NodeView>, q: QueryView) -> Seq<usize> {
    find_upto(nodes, q, nodes.len())
}

/// Whether `root` is an ancestor of node `i`.
pub open spec fn is_below(nodes: Seq<NodeView>, i: nat, root: nat) -> bool
    decreases i,
{
    match nodes[i as int].parent {
        Some(p) => p < i && (p == root || is_below(nodes, p as nat, root)),
        None => false,
    }
}

/// The nodes before `n` below `root` that match `q`, in document order.
pub open spec fn find_below_upto(nodes: Seq<NodeView>, root: nat, q: QueryView, n: nat) -> Seq<usize>
    decreases n,
{
    if n == 0 {
        Seq::empty()
    } else if is_below(nodes, (n - 1) as nat, root) && matches(nodes, (n - 1) as nat, q) {
        find_below_upto(nodes, root, q, (n - 1) as nat).push((n - 1) as usize)
    } else {
        find_below_upto(nodes, root, q, (n - 1) as nat)
    }
}

/// `Node::find(q)` on node `root`: the descendants of `root` that match `q`,
/// in document order.
pub open spec fn find_below(nodes: Seq<NodeView>, root: nat, q: QueryView) -> Seq<usize> {
    find_below_upto(nodes, root, q, nodes.len())
}

/// The first element of a sequence, if any.
pub open spec fn first_of<A>(s: Seq<A>) -> Option<A> {
    if s.len() > 0 {
        Some(s[0])
    } else {
        None
    }
}

/// The last element of a sequence, if any.
pub open spec fn last_of<A>(s: Seq<A>) -> Option<A> {
    if s.len() > 0 {
        Some(s.last())
    } else {
        None
    }
}

impl HtmlDoc {
    /// `Node::attr(name)` of node `i`.
    pub fn attr(&self, i: usize, name: &str) -> (r: Option<String>)
        requires
            i < self@.len(),
        ensures
            opt_view(r) == attr_of(self@[i as int].attrs, name@),
    {
        let attrs = &self.nodes[i].attrs;
        let ghost all = self@[i as int].attrs;
        let wanted = String::from_str(name);
        let mut k: usize = 0;
        assert(all.skip(0) =~= all);
        while k < attrs.len()
            invariant
                k <= attrs@.len(),
                i < self@.len(),
                all == self@[i as int].attrs,
                all == pair_views(attrs@),
                wanted@ == name@,
                attr_of(all, name@) == attr_of(all.skip(k as int), name@),
            decreases attrs@.len() - k,
        {
            assert(all.skip(k as int).drop_first() =~= all.skip(k + 1));
            assert(all.skip(k as int)[0] == (attrs@[k as int].0@, attrs@[k as int].1@));
            if attrs[k].0 == wanted {
                return Some(attrs[k].1.clone());
            }
            k = k + 1;
        }
        assert(all.skip(k as int).len() == 0);
        None
    }

    /// Whether node `i` matches `q`.
    pub fn matches(&self, i: usize, q: &Query) -> (r: bool)
        requires
            i < self@.len(),
        ensures
            r == matches(self@, i as nat, q@),
        decreases q,
    {
        proof {
            use_type_invariant(self);
        }
        assert(self@[i as int] == self.nodes@[i as int]@);
        match q {
            Query::Name(n) => match &self.nodes[i].name {
                Some(x) => *x == *n,
                None => false,
            },
            Query::Class(c) => match self.attr(i, "class") {
                Some(v) => contains_token(v.as_str(), c.as_str()),
                None => false,
            },
            Query::Attr(n, v) => match self.attr(i, n.as_str()) {
                Some(x) => x == *v,
                None => false,
            },
            Query::HasAttr(n) => self.attr(i, n.as_str()).is_some(),
            Query::Not(a) => !self.matches(i, a),
            Query::And(a, b) => self.matches(i, a) && self.matches(i, b),
            Query::Descendant(a, b) => {
                if !self.matches(i, b) {
                    return false;
                }
                let mut j = i;
                #[verifier::loop_isolation(false)]
                loop
                    invariant
                        j < self@.len(),
                        parents_first(self@),
                        ancestor_matches(self@, i as nat, a@) == ancestor_matches(self@, j as nat, a@),
                    decreases j,
                {
                    match self.nodes[j].parent {
                        Some(p) => {
                            assert(self@[j as int].parent == Some(p));
                            if self.matches(p, a) {
                                return true;
                            }
                            j = p;
                        },
                        None => {
                            assert(self@[j as int].parent is None);
                            return false;
                        },
                    }
                }
            },
        }
    }

    /// `Document::find(q)`: the indices of all nodes that match `q`.
    pub fn find(&self, q: &Query) -> (r: Vec<usize>)
        ensures
            r@ == find_all(self@, q@),
            forall|k: int| 0 <= k < r@.len() ==> #[trigger] r@[k] < self@.len(),
    {
        let n = self.nodes.len();
        let mut r: Vec<usize> = Vec::new();
        let mut i: usize = 0;
        while i < n
            invariant
                i <= n == self@.len(),
                r@ == find_upto(self@, q@, i as nat),
                forall|k: int| 0 <= k < r@.len() ==> #[trigger] r@[k] < i,
            decreases n - i,
        {
            if self.matches(i, q) {
                r.push(i);
            }
            i = i + 1;
        }
        r
    }

    /// Whether `root` is an ancestor of node `i`.
    fn below(&self, i: usize, root: usize) -> (r: bool)
        requires
            i < self@.len(),
        ensures
            r == is_below(self@, i as nat, root as nat),
    {
        proof {
            use_type_invariant(self);
        }
        let mut j = i;
        loop
            invariant
                j < self@.len(),
                parents_first(self@),
                is_below(self@, i as nat, root as nat) == is_below(self@, j as nat, root as nat),
            decreases j,
        {
            match self.nodes[j].parent {
                Some(p) => {
                    assert(self@[j as int].parent == Some(p));
                    if p == root {
                        return true;
                    }
                    j = p;
                },
                None => {
                    assert(self@[j as int].parent is None);
                    return false;
                },
            }
        }
    }

    /// `Node::find(q)` on node `root`: the indices of its descendants that
    /// match `q`.
    pub fn find_below(&self, root: usize, q: &Query) -> (r: Vec<usize>)
        ensures
            r@ == find_below(self@, root as nat, q@),
            forall|k: int| 0 <= k < r@.len() ==> #[trigger] r@[k] < self@.len(),
    {
        let n = self.nodes.len();
        let mut r: Vec<usize> = Vec::new();
        let mut i: usize = 0;
        while i < n
            invariant
                i <= n == self@.len(),
                r@ == find_below_upto(self@, root as nat, q@, i as nat),
                forall|k: int| 0 <= k < r@.len() ==> #[trigger] r@[k] < i,
            decreases n - i,
        {
            if self.below(i, root) && self.matches(i, q) {
                r.push(i);
            }
            i = i + 1;
        }
        r
    }
}


/// Some ancestor of node `i`, at any depth, matches `q`, exactly when
/// `ancestor_matches` says so.
proof fn lemma_ancestor_matches_any_depth(nodes: Seq<NodeView>, i: nat, q: QueryView)
    requires
        parents_first(nodes),
        i < nodes.len(),
    ensures
        ancestor_matches(nodes, i, q) <==> exists|j: nat| #[trigger] is_below(nodes, i, j) && matches(nodes, j, q),
    decreases i,
{
    match nodes[i as int].parent {
        Some(p) => {
            lemma_ancestor_matches_any_depth(nodes, p as nat, q);
            if ancestor_matches(nodes, i, q) {
                if matches(nodes, p as nat, q) {
                    assert(is_below(nodes, i, p as nat));
                } else {
                    let j = choose|j: nat| #[trigger] is_below(nodes, p as nat, j) && matches(nodes, j, q);
                    assert(is_below(nodes, i, j));
                }
            }
            if exists|j: nat| #[trigger] is_below(nodes, i, j) && matches(nodes, j, q) {
                let j = choose|j: nat| #[trigger] is_below(nodes, i, j) && matches(nodes, j, q);
                if j != p {
                    assert(is_below(nodes, p as nat, j));
                }
            }
        },
        None => {},
    }
}

/// `Descendant(a, b)` matches node `i` exactly when `b` matches it and `a`
/// matches one of its ancestors, at any depth: its parent, the parent of
/// that, and so on.
pub proof fn lemma_descendant_any_depth(nodes: Seq<NodeView>, i: nat, a: QueryView, b: QueryView)
    requires
        parents_first(nodes),
        i < nodes.len(),
    ensures
        matches(nodes, i, QueryView::Descendant(Box::new(a), Box::new(b))) <==> (matches(nodes, i, b)
            && exists|j: nat| #[trigger] is_below(nodes, i, j) && matches(nodes, j, a)),
{
    lemma_ancestor_matches_any_depth(nodes, i, a);
}

/// Node `j` is an ancestor of node `i` exactly when it is `i`'s parent or an
/// ancestor of that parent.
pub proof fn lemma_below_is_ancestry(nodes: Seq<NodeView>, i: nat, j: nat)
    requires
        parents_first(nodes),
        i < nodes.len(),
    ensures
        is_below(nodes, i, j) <==> match nodes[i as int].parent {
            Some(p) => p == j || is_below(nodes, p as nat, j),
            None => false,
        },
{
}


/// `attr_of` gives the value of the first attribute with the name, and
/// nothing when no attribute has it.
pub proof fn lemma_attr_of_first(attrs: Seq<(Seq<char>, Seq<char>)>, name: Seq<char>)
    ensures
        attr_of(attrs, name) is None <==> forall|k: int| 0 <= k < attrs.len() ==> (#[trigger] attrs[k]).0 != name,
        attr_of(attrs, name) matches Some(v) ==> exists|k: int|
            0 <= k < attrs.len() && (#[trigger] attrs[k]) == (name, v) && forall|k2: int|
                0 <= k2 < k ==> (#[trigger] attrs[k2]).0 != name,
    decreases attrs.len(),
{
    if attrs.len() > 0 {
        let t = attrs.drop_first();
        lemma_attr_of_first(t, name);
        if attrs[0].0 != name {
            assert forall|k: int| 1 <= k < attrs.len() implies (#[trigger] attrs[k]) == t[k - 1] by {}
            if attr_of(t, name) is None {
                assert forall|k: int| 0 <= k < attrs.len() implies (#[trigger] attrs[k]).0 != name by {
                    if k > 0 {
                        assert(attrs[k] == t[k - 1]);
                    }
                }
            } else {
                let v = attr_of(t, name)->0;
                let k = choose|k: int|
                    0 <= k < t.len() && (#[trigger] t[k]) == (name, v) && forall|k2: int|
                        0 <= k2 < k ==> (#[trigger] t[k2]).0 != name;
                assert(attrs[k + 1] == t[k]);
                assert forall|k2: int| 0 <= k2 < k + 1 implies (#[trigger] attrs[k2]).0 != name by {
                    if k2 > 0 {
                        assert(attrs[k2] == t[k2 - 1]);
                    }
                }
                assert forall|j: int| !(0 <= j < attrs.len() ==> (#[trigger] attrs[j]).0 != name) implies true by {}
                assert(attrs[k + 1].0 == name);
            }
        } else {
            assert(attrs[0] == (name, attrs[0].1));
        }
    }
}

/// `find_upto` lists, in increasing order, exactly the nodes before `n`
/// that match.
proof fn lemma_find_upto_exact(nodes: Seq<NodeView>, q: QueryView, n: nat)
    requires
        n <= usize::MAX,
    ensures
        forall|k: int| 0 <= k < find_upto(nodes, q, n).len() ==> #[trigger] find_upto(nodes, q, n)[k] < n,
        forall|k: int, l: int|
            0 <= k < l < find_upto(nodes, q, n).len() ==> #[trigger] find_upto(nodes, q, n)[k]
                < #[trigger] find_upto(nodes, q, n)[l],
        forall|x: nat| x < n ==> (matches(nodes, x, q) <==> #[trigger] find_upto(nodes, q, n).contains(x as usize)),
    decreases n,
{
    if n > 0 {
        let m = (n - 1) as nat;
        lemma_find_upto_exact(nodes, q, m);
        let r = find_upto(nodes, q, m);
        assert forall|k: int, l: int|
            0 <= k < l < find_upto(nodes, q, n).len() implies #[trigger] find_upto(nodes, q, n)[k]
                < #[trigger] find_upto(nodes, q, n)[l] by {
            if matches(nodes, m, q) && l == r.len() {
                assert(find_upto(nodes, q, n)[k] == r[k]);
            }
        }
        assert forall|x: nat| x < n implies (matches(nodes, x, q) <==> #[trigger] find_upto(nodes, q, n).contains(x as usize)) by {
            if matches(nodes, m, q) {
                let r2 = r.push(m as usize);
                if x == m {
                    assert(r2[r.len() as int] == m as usize);
                } else {
                    assert(r.contains(x as usize) ==> r2.contains(x as usize)) by {
                        if r.contains(x as usize) {
                            let i = choose|i: int| 0 <= i < r.len() && r[i] == x as usize;
                            assert(r2[i] == r[i]);
                        }
                    }
                    assert(r2.contains(x as usize) ==> r.contains(x as usize)) by {
                        if r2.contains(x as usize) {
                            let i = choose|i: int| 0 <= i < r2.len() && r2[i] == x as usize;
                            assert(i < r.len());
                            assert(r[i] == r2[i]);
                        }
                    }
                }
            } else {
                if x == m {
                    if r.contains(m as usize) {
                        let i = choose|i: int| 0 <= i < r.len() && r[i] == m as usize;
                        assert(r[i] < m);
                    }
                }
            }
        }
    }
}

/// `Document::find(q)` lists, in document order, exactly the nodes that
/// match `q`, each once.
pub proof fn lemma_find_all_exact(nodes: Seq<NodeView>, q: QueryView)
    requires
        nodes.len() <= usize::MAX,
    ensures
        forall|k: int| 0 <= k < find_all(nodes, q).len() ==> #[trigger] find_all(nodes, q)[k] < nodes.len(),
        forall|k: int, l: int|
            0 <= k < l < find_all(nodes, q).len() ==> #[trigger] find_all(nodes, q)[k]
                < #[trigger] find_all(nodes, q)[l],
        forall|x: nat| x < nodes.len() ==> (matches(nodes, x, q) <==> #[trigger] find_all(nodes, q).contains(x as usize)),
{
    lemma_find_upto_exact(nodes, q, nodes.len());
}


/// `find_below_upto` lists, in increasing order, exactly the nodes before
/// `n` below `root` that match.
proof fn lemma_find_below_upto_exact(nodes: Seq<NodeView>, root: nat, q: QueryView, n: nat)
    requires
        n <= usize::MAX,
    ensures
        forall|k: int| 0 <= k < find_below_upto(nodes, root, q, n).len() ==> #[trigger] find_below_upto(nodes, root, q, n)[k] < n,
        forall|k: int, l: int|
            0 <= k < l < find_below_upto(nodes, root, q, n).len() ==> #[trigger] find_below_upto(nodes, root, q, n)[k]
                < #[trigger] find_below_upto(nodes, root, q, n)[l],
        forall|x: nat|
            x < n ==> (is_below(nodes, x, root) && matches(nodes, x, q) <==> #[trigger] find_below_upto(nodes, root, q, n).contains(x as usize)),
    decreases n,
{
    if n > 0 {
        let m = (n - 1) as nat;
        lemma_find_below_upto_exact(nodes, root, q, m);
        let r = find_below_upto(nodes, root, q, m);
        let hit = is_below(nodes, m, root) && matches(nodes, m, q);
        assert forall|k: int, l: int|
            0 <= k < l < find_below_upto(nodes, root, q, n).len() implies #[trigger] find_below_upto(nodes, root, q, n)[k]
                < #[trigger] find_below_upto(nodes, root, q, n)[l] by {
            if hit && l == r.len() {
                assert(find_below_upto(nodes, root, q, n)[k] == r[k]);
            }
        }
        assert forall|x: nat| x < n implies (is_below(nodes, x, root) && matches(nodes, x, q) <==> #[trigger] find_below_upto(nodes, root, q, n).contains(x as usize)) by {
            if hit {
                let r2 = r.push(m as usize);
                if x == m {
                    assert(r2[r.len() as int] == m as usize);
                } else {
                    if r.contains(x as usize) {
                        let i = choose|i: int| 0 <= i < r.len() && r[i] == x as usize;
                        assert(r2[i] == r[i]);
                    }
                    if r2.contains(x as usize) {
                        let i = choose|i: int| 0 <= i < r2.len() && r2[i] == x as usize;
                        assert(i < r.len());
                        assert(r[i] == r2[i]);
                    }
                }
            } else {
                if x == m {
                    if r.contains(m as usize) {
                        let i = choose|i: int| 0 <= i < r.len() && r[i] == m as usize;
                        assert(r[i] < m);
                    }
                }
            }
        }
    }
}

/// `Node::find(q)` on `root` lists, in document order, exactly the nodes
/// below `root` (at any depth) that match `q`, each once.
pub proof fn lemma_find_below_exact(nodes: Seq<NodeView>, root: nat, q: QueryView)
    requires
        nodes.len() <= usize::MAX,
    ensures
        forall|k: int| 0 <= k < find_below(nodes, root, q).len() ==> #[trigger] find_below(nodes, root, q)[k] < nodes.len(),
        forall|k: int, l: int|
            0 <= k < l < find_below(nodes, root, q).len() ==> #[trigger] find_below(nodes, root, q)[k]
                < #[trigger] find_below(nodes, root, q)[l],
        forall|x: nat|
            x < nodes.len() ==> (is_below(nodes, x, root) && matches(nodes, x, q) <==> #[trigger] find_below(nodes, root, q).contains(x as usize)),
{
    lemma_find_below_upto_exact(nodes, root, q, nodes.len());
}

} // verus!
