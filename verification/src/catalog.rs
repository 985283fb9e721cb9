//! The shop's categories: which sub-category listings each category has.

use vstd::prelude::*;
use crate::html::HtmlDoc;
use crate::html::NodeView;
use crate::html::Query;
use crate::html::QueryView;
use crate::html::attr_of;
use crate::html::find_all;
use crate::html::find_below;
use crate::html::last_of;
use crate::html::parsed;
use crate::text::trim;
use crate::text::trimmed;

verus! {

/// No two entries share a key.
pub open spec fn keys_distinct<W>(s: Seq<(Seq<char>, W)>) -> bool {
    forall|i: int, j: int| 0 <= i < s.len() && 0 <= j < s.len() && i != j ==> s[i].0 != s[j].0
}

/// Some entry has key `k`.
pub open spec fn has_key<W>(s: Seq<(Seq<char>, W)>, k: Seq<char>) -> bool {
    exists|i: int| 0 <= i < s.len() && #[trigger] s[i].0 == k
}

/// The entry with key `k`.
pub open spec fn slot<W>(s: Seq<(Seq<char>, W)>, k: Seq<char>) -> int {
    choose|i: int| 0 <= i < s.len() && #[trigger] s[i].0 == k
}

/// The map that a list of entries with distinct keys stands for.
pub open spec fn map_of<W>(s: Seq<(Seq<char>, W)>) -> Map<Seq<char>, W> {
    Map::new(|k: Seq<char>| has_key(s, k), |k: Seq<char>| s[slot(s, k)].1)
}

/// Adding an entry with a new key adds that key to the map.
proof fn lemma_map_of_push<W>(s: Seq<(Seq<char>, W)>, k: Seq<char>, w: W)
    requires
        keys_distinct(s),
        !has_key(s, k),
    ensures
        keys_distinct(s.push((k, w))),
        map_of(s.push((k, w))) == map_of(s).insert(k, w),
{
    let t = s.push((k, w));
    assert(t[s.len() as int].0 == k);
    assert forall|x: Seq<char>| #[trigger] has_key(t, x) == (has_key(s, x) || x == k) by {
        if has_key(s, x) {
            let i = slot(s, x);
            assert(t[i].0 == x);
        }
        if has_key(t, x) && x != k {
            let i = slot(t, x);
            assert(s[i].0 == x);
        }
    }
    assert forall|x: Seq<char>| has_key(t, x) implies #[trigger] t[slot(t, x)].1 == map_of(s).insert(k, w)[x] by {
        let i = slot(t, x);
        if x == k {
            assert(i == s.len());
        } else {
            let j = slot(s, x);
            assert(t[j].0 == x);
            assert(i == j);
        }
    }
    assert(map_of(t) =~= map_of(s).insert(k, w));
}

/// Replacing the value of entry `i` replaces it in the map.
proof fn lemma_map_of_update<W>(s: Seq<(Seq<char>, W)>, i: int, w: W)
    requires
        keys_distinct(s),
        0 <= i < s.len(),
    ensures
        keys_distinct(s.update(i, (s[i].0, w))),
        map_of(s.update(i, (s[i].0, w))) == map_of(s).insert(s[i].0, w),
{
    let k = s[i].0;
    let t = s.update(i, (k, w));
    assert forall|x: Seq<char>| #[trigger] has_key(t, x) == has_key(s, x) by {
        if has_key(s, x) {
            let j = slot(s, x);
            assert(t[j].0 == x);
        }
        if has_key(t, x) {
            let j = slot(t, x);
            assert(s[j].0 == x);
        }
    }
    assert(has_key(s, k)) by {
        assert(s[i].0 == k);
    }
    assert forall|x: Seq<char>| has_key(t, x) implies #[trigger] t[slot(t, x)].1 == map_of(s).insert(k, w)[x] by {
        let a = slot(t, x);
        let b = slot(s, x);
        assert(s[a].0 == x);
        assert(a == b);
        if x == k {
            assert(a == i);
        }
    }
    assert(map_of(t) =~= map_of(s).insert(k, w));
}

/// Dropping entry `i` drops its key from the map.
proof fn lemma_map_of_remove<W>(s: Seq<(Seq<char>, W)>, i: int)
    requires
        keys_distinct(s),
        0 <= i < s.len(),
    ensures
        keys_distinct(s.remove(i)),
        map_of(s.remove(i)) == map_of(s).remove(s[i].0),
{
    let k = s[i].0;
    let t = s.remove(i);
    assert forall|a: int, b: int| 0 <= a < t.len() && 0 <= b < t.len() && a != b implies t[a].0 != t[b].0 by {
        let a2 = if a < i { a } else { a + 1 };
        let b2 = if b < i { b } else { b + 1 };
        assert(t[a] == s[a2]);
        assert(t[b] == s[b2]);
    }
    assert forall|x: Seq<char>| #[trigger] has_key(t, x) == (has_key(s, x) && x != k) by {
        if has_key(s, x) && x != k {
            let j = slot(s, x);
            assert(j != i);
            if j < i {
                assert(t[j].0 == x);
            } else {
                assert(t[j - 1].0 == x);
            }
        }
        if has_key(t, x) {
            let j = slot(t, x);
            let j2 = if j < i { j } else { j + 1 };
            assert(s[j2].0 == x);
            assert(j2 != i);
        }
    }
    assert forall|x: Seq<char>| has_key(t, x) implies #[trigger] t[slot(t, x)].1 == map_of(s).remove(k)[x] by {
        let a = slot(t, x);
        let a2 = if a < i { a } else { a + 1 };
        assert(s[a2] == t[a]);
        let b = slot(s, x);
        assert(b == a2);
    }
    assert(map_of(t) =~= map_of(s).remove(k));
}

/// A map keyed by strings, its entries in the order their keys came.
pub struct KeyedMap<V: View> {
    entries: Vec<(String, V)>,
}

impl<V: View> KeyedMap<V> {
    /// The entries as plain values.
    pub closed spec fn pairs(&self) -> Seq<(Seq<char>, V::V)> {
        self.entries@.map_values(|e: (String, V)| (e.0@, e.1@))
    }

    #[verifier::type_invariant]
    closed spec fn keys_are_distinct(self) -> bool {
        keys_distinct(self.pairs())
    }
}

impl<V: View> View for KeyedMap<V> {
    type V = Map<Seq<char>, V::V>;

    closed spec fn view(&self) -> Map<Seq<char>, V::V> {
        map_of(self.pairs())
    }
}

impl<V: View> KeyedMap<V> {
    /// An empty map.
    pub fn new() -> (m: KeyedMap<V>)
        ensures
            m@ == Map::<Seq<char>, V::V>::empty(),
    {
        let m = KeyedMap { entries: Vec::new() };
        assert(m@ =~= Map::<Seq<char>, V::V>::empty());
        m
    }

    /// The number of keys.
    pub fn len(&self) -> (r: usize)
        ensures
            r == self@.dom().len(),
    {
        proof {
            use_type_invariant(self);
            self.lemma_dom_size();
        }
        self.entries.len()
    }

    /// The keys are exactly those of the entries, one each.
    proof fn lemma_dom_size(&self)
        requires
            keys_distinct(self.pairs()),
        ensures
            self@.dom().len() == self.entries@.len(),
            self@.dom().finite(),
    {
        let s = self.pairs();
        let keys = s.map_values(|e: (Seq<char>, V::V)| e.0);
        assert forall|i: int, j: int| 0 <= i < keys.len() && 0 <= j < keys.len() && i != j implies keys[i] != keys[j] by {
            assert(s[i].0 != s[j].0);
        }
        assert(keys.no_duplicates());
        assert forall|x: Seq<char>| self@.dom().contains(x) == keys.to_set().contains(x) by {
            if has_key(s, x) {
                let i = slot(s, x);
                assert(keys[i] == x);
            }
            if keys.to_set().contains(x) {
                let i = choose|i: int| 0 <= i < keys.len() && keys[i] == x;
                assert(s[i].0 == x);
            }
        }
        assert(self@.dom() =~= keys.to_set());
        keys.unique_seq_to_set();
    }

    /// Where key `key` stands among the entries, if anywhere.
    fn position(&self, key: &str) -> (r: Option<usize>)
        ensures
            match r {
                Some(i) => i < self.entries@.len() && self.pairs()[i as int].0 == key@,
                None => !has_key(self.pairs(), key@),
            },
    {
        let wanted = String::from_str(key);
        let mut i: usize = 0;
        while i < self.entries.len()
            invariant
                i <= self.entries@.len(),
                wanted@ == key@,
                forall|j: int| 0 <= j < i ==> #[trigger] self.pairs()[j].0 != key@,
            decreases self.entries@.len() - i,
        {
            if self.entries[i].0 == wanted {
                return Some(i);
            }
            i = i + 1;
        }
        None
    }

    /// The value of `key`.
    pub fn get(&self, key: &str) -> (r: Option<&V>)
        ensures
            match r {
                Some(v) => self@.contains_key(key@) && v@ == self@[key@],
                None => !self@.contains_key(key@),
            },
    {
        proof {
            use_type_invariant(self);
        }
        match self.position(key) {
            Some(i) => {
                assert(slot(self.pairs(), key@) == i);
                Some(&self.entries[i].1)
            },
            None => None,
        }
    }

    /// Sets the value of `key` to `value`.
    pub fn insert(&mut self, key: String, value: V)
        ensures
            final(self)@ == old(self)@.insert(key@, value@),
    {
        proof {
            use_type_invariant(&*self);
        }
        let ghost s = self.pairs();
        let found = self.position(key.as_str());
        let mut entries: Vec<(String, V)> = Vec::new();
        std::mem::swap(&mut entries, &mut self.entries);
        match found {
            Some(i) => {
                proof {
                    lemma_map_of_update(s, i as int, value@);
                }
                let _ = entries.remove(i);
                entries.insert(i, (key, value));
            },
            None => {
                proof {
                    lemma_map_of_push(s, key@, value@);
                }
                entries.push((key, value));
            },
        }
        proof {
            let t = entries@.map_values(|e: (String, V)| (e.0@, e.1@));
            match found {
                Some(i) => {
                    assert(t =~= s.update(i as int, (s[i as int].0, value@)));
                },
                None => {
                    assert(t =~= s.push((key@, value@)));
                },
            }
        }
        self.entries = entries;
    }

    /// Takes the value of `key` out of the map.
    pub fn remove(&mut self, key: &str) -> (r: Option<V>)
        ensures
            final(self)@ == old(self)@.remove(key@),
            match r {
                Some(v) => old(self)@.contains_key(key@) && v@ == old(self)@[key@],
                None => !old(self)@.contains_key(key@),
            },
    {
        proof {
            use_type_invariant(&*self);
        }
        let ghost s = self.pairs();
        match self.position(key) {
            Some(i) => {
                proof {
                    lemma_map_of_remove(s, i as int);
                    assert(slot(s, key@) == i);
                }
                let mut entries: Vec<(String, V)> = Vec::new();
                std::mem::swap(&mut entries, &mut self.entries);
                let (_, v) = entries.remove(i);
                proof {
                    let t = entries@.map_values(|e: (String, V)| (e.0@, e.1@));
                    assert(t =~= s.remove(i as int));
                }
                self.entries = entries;
                Some(v)
            },
            None => {
                assert(self@ =~= self@.remove(key@));
                None
            },
        }
    }

    /// The entries, each key once, in the order the keys came.
    pub fn entries(&self) -> (r: &Vec<(String, V)>)
        ensures
            r@.len() == self@.dom().len(),
            forall|i: int|
                0 <= i < r@.len() ==> self@.contains_key(#[trigger] r@[i].0@) && self@[r@[i].0@]
                    == r@[i].1@,
            forall|i: int, j: int|
                0 <= i < r@.len() && 0 <= j < r@.len() && i != j ==> r@[i].0@ != r@[j].0@,
    {
        proof {
            use_type_invariant(self);
            self.lemma_dom_size();
            let s = self.pairs();
            assert forall|i: int| 0 <= i < self.entries@.len() implies self@.contains_key(
                #[trigger] self.entries@[i].0@,
            ) && self@[self.entries@[i].0@] == self.entries@[i].1@ by {
                assert(s[i].0 == self.entries@[i].0@);
                assert(has_key(s, s[i].0));
                assert(slot(s, s[i].0) == i);
            }
            assert forall|i: int, j: int|
                0 <= i < self.entries@.len() && 0 <= j < self.entries@.len() && i != j implies self.entries@[i].0@
                != self.entries@[j].0@ by {
                assert(s[i].0 != s[j].0);
            }
        }
        &self.entries
    }
}


/// The sub-category listings of one category, by name.
pub type Links = KeyedMap<String>;

/// The categories of the shop, by name.
pub type Categories = KeyedMap<KeyedMap<String>>;

/// `[id=side-menu]`: the menu of categories.
pub open spec fn side_menu() -> QueryView {
    QueryView::Attr("id"@, "side-menu"@)
}

/// `a`: the links of the home page's menu, one per category.
pub open spec fn category_link() -> QueryView {
    QueryView::Name("a"@)
}

/// `a.subcategory-link`: the links of a category page's menu.
pub open spec fn subcategory_link() -> QueryView {
    QueryView::And(
        Box::new(QueryView::Name("a"@)),
        Box::new(QueryView::Class("subcategory-link"@)),
    )
}

/// The trimmed text and the target of each node among `ids` that has an
/// `href`, in order.
pub open spec fn link_pairs(nodes: Seq<NodeView>, ids: Seq<usize>) -> Seq<(Seq<char>, Seq<char>)>
    decreases ids.len(),
{
    if ids.len() == 0 {
        Seq::empty()
    } else {
        let rest = link_pairs(nodes, ids.drop_last());
        match attr_of(nodes[ids.last() as int].attrs, "href"@) {
            Some(h) => rest.push((trim(nodes[ids.last() as int].text), h)),
            None => rest,
        }
    }
}

/// The links matching `link` inside the last side menu of a page; `None`
/// when the page has no side menu.
pub open spec fn menu_links(nodes: Seq<NodeView>, link: QueryView) -> Option<Seq<(Seq<char>, Seq<char>)>> {
    match last_of(find_all(nodes, side_menu())) {
        None => None,
        Some(m) => Some(link_pairs(nodes, find_below(nodes, m as nat, link))),
    }
}

/// The views of name/target pairs.
pub open spec fn link_views(v: Seq<(String, String)>) -> Seq<(Seq<char>, Seq<char>)> {
    v.map_values(|p: (String, String)| (p.0@, p.1@))
}

/// The views of an optional list of name/target pairs.
pub open spec fn opt_link_views(o: Option<Vec<(String, String)>>) -> Option<Seq<(Seq<char>, Seq<char>)>> {
    match o {
        Some(v) => Some(link_views(v@)),
        None => None,
    }
}

/// The links matching `link` in the last side menu of the page `res`.
fn links_in_menu(res: &String, link: &Query) -> (r: Option<Vec<(String, String)>>)
    ensures
        opt_link_views(r) == menu_links(parsed(res@), link@),
{
    menu_links_in(&HtmlDoc::parse(res.as_str()), link)
}

/// The links matching `link` in the last side menu of the document `doc`,
/// as (trimmed text, target) pairs; `None` when it has no side menu.
pub fn menu_links_in(doc: &HtmlDoc, link: &Query) -> (r: Option<Vec<(String, String)>>)
    ensures
        opt_link_views(r) == menu_links(doc@, link@),
{
    let menus = doc.find(&Query::attr("id", "side-menu"));
    if menus.len() == 0 {
        return None;
    }
    let menu = menus[menus.len() - 1];
    let ids = doc.find_below(menu, link);
    let mut r: Vec<(String, String)> = Vec::new();
    let mut i: usize = 0;
    while i < ids.len()
        invariant
            i <= ids@.len(),
            forall|k: int| 0 <= k < ids@.len() ==> #[trigger] ids@[k] < doc@.len(),
            link_views(r@) == link_pairs(doc@, ids@.take(i as int)),
        decreases ids@.len() - i,
    {
        assert(ids@.take(i + 1).drop_last() =~= ids@.take(i as int));
        match doc.attr(ids[i], "href") {
            Some(h) => {
                let name = trimmed(doc.node(ids[i]).text.as_str());
                r.push((name, h));
                assert(link_views(r@) =~= link_pairs(doc@, ids@.take(i as int)).push(
                    (trim(doc@[ids@[i as int] as int].text), h@),
                ));
            },
            None => {},
        }
        i = i + 1;
    }
    assert(ids@.take(ids@.len() as int) =~= ids@);
    Some(r)
}

/// The categories that the home page `res` links from its side menu, as
/// (name, path) pairs; `None` when it has no side menu.
pub fn category_links(res: &String) -> (r: Option<Vec<(String, String)>>)
    ensures
        opt_link_views(r) == menu_links(parsed(res@), category_link()),
{
    links_in_menu(res, &Query::name("a"))
}

/// The sub-categories that the category page `res` links from its side menu,
/// as (name, path) pairs; `None` when it has no side menu.
pub fn subcategory_links(res: &String) -> (r: Option<Vec<(String, String)>>)
    ensures
        opt_link_views(r) == menu_links(parsed(res@), subcategory_link()),
{
    links_in_menu(res, &Query::name("a").and(Query::class("subcategory-link")))
}

/// `m` with each pair inserted in turn, later pairs winning.
pub open spec fn insert_all(m: Map<Seq<char>, Seq<char>>, pairs: Seq<(Seq<char>, Seq<char>)>) -> Map<Seq<char>, Seq<char>>
    decreases pairs.len(),
{
    if pairs.len() == 0 {
        m
    } else {
        insert_all(m, pairs.drop_last()).insert(pairs.last().0, pairs.last().1)
    }
}

/// Inserts each pair in turn into `m`.
fn insert_links(m: &mut Links, links: Vec<(String, String)>)
    ensures
        final(m)@ == insert_all(old(m)@, link_views(links@)),
{
    let ghost start = m@;
    let ghost all = link_views(links@);
    let ghost order = links@;
    let mut rest = links;
    let mut i: usize = 0;
    let n = rest.len();
    while i < n
        invariant
            i <= n == order.len(),
            rest@ == order.skip(i as int),
            all == link_views(order),
            m@ == insert_all(start, all.take(i as int)),
        decreases n - i,
    {
        let (k, v) = rest.remove(0);
        assert(rest@ =~= order.skip(i + 1));
        assert(all.take(i + 1).drop_last() =~= all.take(i as int));
        m.insert(k, v);
        i = i + 1;
    }
    assert(all.take(n as int) =~= all);
}

/// `links` collected into a map, later pairs winning.
pub fn link_map(links: Vec<(String, String)>) -> (r: Links)
    ensures
        r@ == insert_all(Map::empty(), link_views(links@)),
{
    let mut m: Links = KeyedMap::new();
    insert_links(&mut m, links);
    m
}

/// What adding the sub-category `links` of `category` makes of the
/// categories: each link goes into the category's listings, later ones
/// winning; no links leave the categories as they are.
pub open spec fn with_links(
    c: Map<Seq<char>, Map<Seq<char>, Seq<char>>>,
    category: Seq<char>,
    links: Seq<(Seq<char>, Seq<char>)>,
) -> Map<Seq<char>, Map<Seq<char>, Seq<char>>> {
    if links.len() == 0 {
        c
    } else {
        let before = if c.contains_key(category) {
            c[category]
        } else {
            Map::empty()
        };
        c.insert(category, insert_all(before, links))
    }
}

/// Adds the sub-category `links` of `category`.
pub fn add_links(categories: &mut Categories, category: &String, links: Vec<(String, String)>)
    ensures
        final(categories)@ == with_links(old(categories)@, category@, link_views(links@)),
{
    if links.len() == 0 {
        assert(link_views(links@).len() == 0);
        return;
    }
    let mut inner = match categories.remove(category.as_str()) {
        Some(m) => m,
        None => KeyedMap::new(),
    };
    insert_links(&mut inner, links);
    categories.insert(category.clone(), inner);
    assert(categories@ =~= with_links(old(categories)@, category@, link_views(links@)));
}


/// Collecting pairs into a map keeps, for each name, the target of its last
/// pair.
pub proof fn lemma_last_pair_wins(m: Map<Seq<char>, Seq<char>>, pairs: Seq<(Seq<char>, Seq<char>)>, i: int)
    requires
        0 <= i < pairs.len(),
        forall|j: int| i < j < pairs.len() ==> #[trigger] pairs[j].0 != pairs[i].0,
    ensures
        insert_all(m, pairs).contains_key(pairs[i].0),
        insert_all(m, pairs)[pairs[i].0] == pairs[i].1,
    decreases pairs.len(),
{
    if i < pairs.len() - 1 {
        let rest = pairs.drop_last();
        assert forall|j: int| i < j < rest.len() implies #[trigger] rest[j].0 != rest[i].0 by {
            assert(rest[j] == pairs[j]);
        }
        lemma_last_pair_wins(m, rest, i);
        assert(pairs.last().0 != pairs[i].0);
    }
}

/// Collecting pairs into a map leaves the names of no pair as they were.
pub proof fn lemma_other_names_kept(m: Map<Seq<char>, Seq<char>>, pairs: Seq<(Seq<char>, Seq<char>)>, x: Seq<char>)
    requires
        forall|j: int| 0 <= j < pairs.len() ==> #[trigger] pairs[j].0 != x,
    ensures
        insert_all(m, pairs).contains_key(x) == m.contains_key(x),
        m.contains_key(x) ==> insert_all(m, pairs)[x] == m[x],
    decreases pairs.len(),
{
    if pairs.len() > 0 {
        let rest = pairs.drop_last();
        assert forall|j: int| 0 <= j < rest.len() implies #[trigger] rest[j].0 != x by {
            assert(rest[j] == pairs[j]);
        }
        lemma_other_names_kept(m, rest, x);
        assert(pairs.last().0 != x);
    }
}

/// Adding the links of one category leaves every other category as it was.
pub proof fn lemma_other_categories_kept(
    c: Map<Seq<char>, Map<Seq<char>, Seq<char>>>,
    category: Seq<char>,
    links: Seq<(Seq<char>, Seq<char>)>,
    other: Seq<char>,
)
    requires
        other != category,
    ensures
        with_links(c, category, links).contains_key(other) == c.contains_key(other),
        c.contains_key(other) ==> with_links(c, category, links)[other] == c[other],
{
}


/// Takes in the page `res` of `category`: adds its sub-category links to the
/// categories and returns `true`; a page without a side menu instead leaves
/// no categories at all, and `false` says the crawl ends there.
pub fn add_category_page(categories: &mut Categories, category: &String, res: &String) -> (r: bool)
    ensures
        match menu_links(parsed(res@), subcategory_link()) {
            Some(links) => r && final(categories)@ == with_links(old(categories)@, category@, links),
            None => !r && final(categories)@ == Map::<Seq<char>, Map<Seq<char>, Seq<char>>>::empty(),
        },
{
    match subcategory_links(res) {
        Some(links) => {
            add_links(categories, category, links);
            true
        },
        None => {
            *categories = KeyedMap::new();
            false
        },
    }
}


/// The (name, target) pair of link `k`: its trimmed text and its `href`,
/// when it has one.
pub open spec fn link_pair(nodes: Seq<NodeView>, k: usize) -> Option<(Seq<char>, Seq<char>)> {
    match attr_of(nodes[k as int].attrs, "href"@) {
        Some(h) => Some((trim(nodes[k as int].text), h)),
        None => None,
    }
}

/// The menu links are, in order, the trimmed text and target of each link
/// that has a target; links without one are dropped.
pub proof fn lemma_link_pairs_of_links(nodes: Seq<NodeView>, ids: Seq<usize>)
    ensures
        link_pairs(nodes, ids) == ids.filter_map(|k: usize| link_pair(nodes, k)),
    decreases ids.len(),
{
    if ids.len() > 0 {
        lemma_link_pairs_of_links(nodes, ids.drop_last());
        match link_pair(nodes, ids.last()) {
            Some(x) => {
                assert(link_pairs(nodes, ids.drop_last()).push(x) =~= link_pairs(nodes, ids.drop_last()) + seq![x]);
            },
            None => {},
        }
    }
}

} // verus!
