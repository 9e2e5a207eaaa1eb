use vstd::prelude::*;

use crate::data_types::PriceDatum;

verus! {

/// An item of the market, known by its name and by its id.
#[derive(Debug)]
pub struct Item {
    pub name: String,
    pub item_id: String,
    pub item_prices: PriceDatum,
}

pub struct ItemView {
    pub name: Seq<char>,
    pub id: Seq<char>,
    pub price: PriceDatum,
}

impl View for Item {
    type V = ItemView;

    open spec fn view(&self) -> ItemView {
        ItemView { name: self.name@, id: self.item_id@, price: self.item_prices }
    }
}

impl Item {
    pub fn new(name: String, id: String, price_data: PriceDatum) -> (r: Item)
        ensures
            r@ == (ItemView { name: name@, id: id@, price: price_data }),
    {
        Item { name, item_id: id, item_prices: price_data }
    }

    pub fn invalid_data(&self) -> (r: bool)
        ensures
            r == self.item_prices.spec_invalid(),
    {
        self.item_prices.invalid_data()
    }

    /// A copy of the item with the same name, id and prices.
    pub fn duplicate(&self) -> (r: Item)
        ensures
            r@ == self@,
    {
        Item { name: self.name.clone(), item_id: self.item_id.clone(), item_prices: self.item_prices }
    }
}

pub open spec fn has_name(s: Seq<ItemView>, n: Seq<char>) -> bool {
    exists|i: int| 0 <= i < s.len() && (#[trigger] s[i]).name == n
}

pub open spec fn has_id(s: Seq<ItemView>, id: Seq<char>) -> bool {
    exists|i: int| 0 <= i < s.len() && (#[trigger] s[i]).id == id
}

/// The entry whose name is `n`; meaningful when `has_name(s, n)`.
pub open spec fn named(s: Seq<ItemView>, n: Seq<char>) -> ItemView {
    s[choose|i: int| 0 <= i < s.len() && (#[trigger] s[i]).name == n]
}

/// The entry whose id is `id`; meaningful when `has_id(s, id)`.
pub open spec fn with_id(s: Seq<ItemView>, id: Seq<char>) -> ItemView {
    s[choose|i: int| 0 <= i < s.len() && (#[trigger] s[i]).id == id]
}

pub open spec fn names_distinct(s: Seq<ItemView>) -> bool {
    forall|i: int, j: int| 0 <= i < s.len() && 0 <= j < s.len() && i != j ==> (#[trigger] s[i]).name != (#[trigger] s[j]).name
}

pub open spec fn ids_distinct(s: Seq<ItemView>) -> bool {
    forall|i: int, j: int| 0 <= i < s.len() && 0 <= j < s.len() && i != j ==> (#[trigger] s[i]).id != (#[trigger] s[j]).id
}

/// The catalog built from candidate items: in order, an item is kept when its
/// prices are usable and neither its name nor its id was kept before.
pub open spec fn admitted(s: Seq<ItemView>) -> Seq<ItemView>
    decreases s.len(),
{
    if s.len() == 0 {
        Seq::empty()
    } else {
        let prev = admitted(s.drop_last());
        let it = s.last();
        if !it.price.spec_invalid() && !has_name(prev, it.name) && !has_id(prev, it.id) {
            prev.push(it)
        } else {
            prev
        }
    }
}

/// The entries of `s` whose name is not in `names`, in order.
pub open spec fn kept(s: Seq<ItemView>, names: Set<Seq<char>>) -> Seq<ItemView>
    decreases s.len(),
{
    if s.len() == 0 {
        Seq::empty()
    } else {
        let prev = kept(s.drop_last(), names);
        if names.contains(s.last().name) {
            prev
        } else {
            prev.push(s.last())
        }
    }
}

/// The entries of `s` whose name is in `names`, in order.
pub open spec fn dropped(s: Seq<ItemView>, names: Set<Seq<char>>) -> Seq<ItemView>
    decreases s.len(),
{
    if s.len() == 0 {
        Seq::empty()
    } else {
        let prev = dropped(s.drop_last(), names);
        if names.contains(s.last().name) {
            prev.push(s.last())
        } else {
            prev
        }
    }
}

pub open spec fn name_set(v: Seq<String>) -> Set<Seq<char>> {
    Set::new(|n: Seq<char>| exists|i: int| 0 <= i < v.len() && (#[trigger] v[i])@ == n)
}

pub open spec fn views(v: Seq<Item>) -> Seq<ItemView> {
    v.map_values(|it: Item| it@)
}

/// The last entry of `s` named `n`.
pub open spec fn last_named(s: Seq<ItemView>, n: Seq<char>) -> Option<ItemView>
    decreases s.len(),
{
    if s.len() == 0 {
        None
    } else if s.last().name == n {
        Some(s.last())
    } else {
        last_named(s.drop_last(), n)
    }
}

pub proof fn lemma_kept_in(s: Seq<ItemView>, names: Set<Seq<char>>)
    ensures
        forall|x: ItemView| #[trigger] kept(s, names).contains(x) ==> s.contains(x) && !names.contains(x.name),
    decreases s.len(),
{
    if s.len() > 0 {
        lemma_kept_in(s.drop_last(), names);
        let prev = kept(s.drop_last(), names);
        assert forall|x: ItemView| #[trigger] kept(s, names).contains(x) implies s.contains(x) && !names.contains(x.name) by {
            if prev.contains(x) {
                let j = choose|j: int| 0 <= j < s.drop_last().len() && s.drop_last()[j] == x;
                assert(s[j] == x);
            } else {
                assert(kept(s, names) == prev.push(s.last()));
                let j = choose|j: int| 0 <= j < kept(s, names).len() && kept(s, names)[j] == x;
                assert(j == prev.len());
                assert(s[s.len() - 1] == x);
            }
        }
    }
}

pub proof fn lemma_kept_distinct(s: Seq<ItemView>, names: Set<Seq<char>>)
    ensures
        names_distinct(s) ==> names_distinct(kept(s, names)),
        ids_distinct(s) ==> ids_distinct(kept(s, names)),
    decreases s.len(),
{
    if s.len() > 0 {
        let d = s.drop_last();
        lemma_kept_distinct(d, names);
        lemma_kept_in(d, names);
        let prev = kept(d, names);
        let k = kept(s, names);
        if !names.contains(s.last().name) {
            assert(k == prev.push(s.last()));
            if names_distinct(s) {
                assert(names_distinct(d));
                assert forall|a: int, b: int| 0 <= a < k.len() && 0 <= b < k.len() && a != b
                    implies (#[trigger] k[a]).name != (#[trigger] k[b]).name by {
                    if a == prev.len() || b == prev.len() {
                        let o = if a == prev.len() { b } else { a };
                        assert(prev.contains(k[o]));
                        let j = choose|j: int| 0 <= j < d.len() && d[j] == k[o];
                        assert(s[j] == k[o]);
                    } else {
                        assert(k[a] == prev[a] && k[b] == prev[b]);
                    }
                }
            }
            if ids_distinct(s) {
                assert(ids_distinct(d));
                assert forall|a: int, b: int| 0 <= a < k.len() && 0 <= b < k.len() && a != b
                    implies (#[trigger] k[a]).id != (#[trigger] k[b]).id by {
                    if a == prev.len() || b == prev.len() {
                        let o = if a == prev.len() { b } else { a };
                        assert(prev.contains(k[o]));
                        let j = choose|j: int| 0 <= j < d.len() && d[j] == k[o];
                        assert(s[j] == k[o]);
                    } else {
                        assert(k[a] == prev[a] && k[b] == prev[b]);
                    }
                }
            }
        } else {
            if names_distinct(s) {
                assert(names_distinct(d));
            }
            if ids_distinct(s) {
                assert(ids_distinct(d));
            }
        }
    }
}

/// Setting items aside a second time, by names that were all set aside
/// already, changes nothing: no item is kept or dropped differently.
pub proof fn lemma_ignore_twice(s: Seq<ItemView>, first: Set<Seq<char>>, second: Set<Seq<char>>)
    requires
        second.subset_of(first),
    ensures
        kept(kept(s, first), second) == kept(s, first),
        dropped(kept(s, first), second) == Seq::<ItemView>::empty(),
    decreases s.len(),
{
    if s.len() > 0 {
        lemma_ignore_twice(s.drop_last(), first, second);
        let prev = kept(s.drop_last(), first);
        if !first.contains(s.last().name) {
            let k = prev.push(s.last());
            assert(k.drop_last() =~= prev);
            assert(k.last() == s.last());
        }
    }
}

/// The name that the last entry of an id-to-name table gives to `id`.
pub open spec fn table_name(t: Seq<(Seq<char>, Seq<char>)>, id: Seq<char>) -> Option<Seq<char>>
    decreases t.len(),
{
    if t.len() == 0 {
        None
    } else if t.last().0 == id {
        Some(t.last().1)
    } else {
        table_name(t.drop_last(), id)
    }
}

/// Candidate items from raw prices keyed by id: each id that the table names
/// becomes an item under that name; ids the table does not know are skipped.
pub open spec fn joined(prices: Seq<(Seq<char>, PriceDatum)>, t: Seq<(Seq<char>, Seq<char>)>) -> Seq<ItemView>
    decreases prices.len(),
{
    if prices.len() == 0 {
        Seq::empty()
    } else {
        let prev = joined(prices.drop_last(), t);
        let (id, p) = prices.last();
        match table_name(t, id) {
            Some(n) => prev.push(ItemView { name: n, id, price: p }),
            None => prev,
        }
    }
}

pub open spec fn price_rows(v: Seq<(String, PriceDatum)>) -> Seq<(Seq<char>, PriceDatum)> {
    v.map_values(|r: (String, PriceDatum)| (r.0@, r.1))
}

pub open spec fn name_rows(v: Seq<(String, String)>) -> Seq<(Seq<char>, Seq<char>)> {
    v.map_values(|r: (String, String)| (r.0@, r.1@))
}

/// The price catalog: the tradable items, each reachable by name and by id,
/// and the items that were set aside by name.
pub struct ItemSearch {
    pub items: Vec<Item>,
    pub ignored: Vec<Item>,
}

impl ItemSearch {
    pub open spec fn items_view(&self) -> Seq<ItemView> {
        views(self.items@)
    }

    pub open spec fn ignored_view(&self) -> Seq<ItemView> {
        views(self.ignored@)
    }

    /// Names and ids of tradable items are unique, and every tradable item has usable prices.
    pub open spec fn wf(&self) -> bool {
        &&& names_distinct(self.items_view())
        &&& ids_distinct(self.items_view())
        &&& forall|i: int| 0 <= i < self.items@.len() ==> !(#[trigger] self.items@[i]).item_prices.spec_invalid()
    }

    /// Builds a catalog from candidate items; items with unusable prices, and
    /// items whose name or id was already taken by an earlier one, are left out.
    pub fn new(items: Vec<Item>) -> (r: ItemSearch)
        ensures
            r.wf(),
            r.items_view() == admitted(views(items@)),
            r.ignored@.len() == 0,
    {
        let mut out: Vec<Item> = Vec::new();
        let ghost src = views(items@);
        let mut i: usize = 0;
        while i < items.len()
            invariant
                i <= items.len(),
                src == views(items@),
                views(out@) == admitted(src.subrange(0, i as int)),
                names_distinct(views(out@)),
                ids_distinct(views(out@)),
                forall|k: int| 0 <= k < out@.len() ==> !(#[trigger] out@[k]).item_prices.spec_invalid(),
            decreases items.len() - i,
        {
            let ghost prev = views(out@);
            assert(src.subrange(0, i as int + 1).drop_last() =~= src.subrange(0, i as int));
            let it = &items[i];
            let name_taken = Self::find_name(&out, &it.name);
            let id_taken = Self::find_id(&out, &it.item_id);
            assert(src[i as int] == items@[i as int]@);
            if let Some(k) = name_taken {
                assert(prev[k as int].name == src[i as int].name);
            }
            if let Some(k) = id_taken {
                assert(prev[k as int].id == src[i as int].id);
            }
            if !it.invalid_data() && name_taken.is_none() && id_taken.is_none() {
                out.push(it.duplicate());
                assert(views(out@) =~= prev.push(src[i as int]));
                assert forall|a: int, b: int| 0 <= a < out@.len() && 0 <= b < out@.len() && a != b
                    implies (#[trigger] views(out@)[a]).name != (#[trigger] views(out@)[b]).name by {
                    if a == prev.len() {
                        assert(prev[b] == views(out@)[b]);
                    } else if b == prev.len() {
                        assert(prev[a] == views(out@)[a]);
                    }
                }
                assert forall|a: int, b: int| 0 <= a < out@.len() && 0 <= b < out@.len() && a != b
                    implies (#[trigger] views(out@)[a]).id != (#[trigger] views(out@)[b]).id by {
                    if a == prev.len() {
                        assert(prev[b] == views(out@)[b]);
                    } else if b == prev.len() {
                        assert(prev[a] == views(out@)[a]);
                    }
                }
            }
            i = i + 1;
        }
        assert(src.subrange(0, items@.len() as int) =~= src);
        ItemSearch { items: out, ignored: Vec::new() }
    }

    pub open spec fn price_of(&self, n: Seq<char>) -> Option<PriceDatum> {
        if has_name(self.items_view(), n) {
            Some(named(self.items_view(), n).price)
        } else {
            None
        }
    }

    /// Price of a tradable item or, failing that, of an item set aside.
    pub open spec fn any_price_of(&self, n: Seq<char>) -> Option<PriceDatum> {
        if has_name(self.items_view(), n) {
            Some(named(self.items_view(), n).price)
        } else {
            match last_named(self.ignored_view(), n) {
                Some(it) => Some(it.price),
                None => None,
            }
        }
    }

    /// Number of tradable items.
    pub fn len(&self) -> (r: usize)
        ensures
            r == self.items@.len(),
    {
        self.items.len()
    }

    pub fn lookup_price(&self, name: &String) -> (r: Option<PriceDatum>)
        requires
            self.wf(),
        ensures
            r == self.price_of(name@),
    {
        match Self::find_name(&self.items, name) {
            Some(k) => {
                proof {
                    let s = self.items_view();
                    assert(s[k as int].name == name@);
                    let c = choose|i: int| 0 <= i < s.len() && (#[trigger] s[i]).name == name@;
                    assert(names_distinct(s));
                    assert(c == k);
                }
                Some(self.items[k].item_prices)
            },
            None => None,
        }
    }

    pub fn lookup_id(&self, name: &String) -> (r: Option<String>)
        requires
            self.wf(),
        ensures
            match r {
                Some(id) => has_name(self.items_view(), name@) && id@ == named(self.items_view(), name@).id,
                None => !has_name(self.items_view(), name@),
            },
    {
        match Self::find_name(&self.items, name) {
            Some(k) => {
                proof {
                    let s = self.items_view();
                    assert(s[k as int].name == name@);
                    let c = choose|i: int| 0 <= i < s.len() && (#[trigger] s[i]).name == name@;
                    assert(names_distinct(s));
                    assert(c == k);
                }
                Some(self.items[k].item_id.clone())
            },
            None => None,
        }
    }

    pub fn lookup_name(&self, id: &String) -> (r: Option<String>)
        requires
            self.wf(),
        ensures
            match r {
                Some(n) => has_id(self.items_view(), id@) && n@ == with_id(self.items_view(), id@).name,
                None => !has_id(self.items_view(), id@),
            },
    {
        match Self::find_id(&self.items, id) {
            Some(k) => {
                proof {
                    let s = self.items_view();
                    assert(s[k as int].id == id@);
                    let c = choose|i: int| 0 <= i < s.len() && (#[trigger] s[i]).id == id@;
                    assert(ids_distinct(s));
                    assert(c == k);
                }
                Some(self.items[k].name.clone())
            },
            None => None,
        }
    }

    /// Like `lookup_price`, but also finds the prices of items set aside.
    pub fn lookup_any_price(&self, name: &String) -> (r: Option<PriceDatum>)
        requires
            self.wf(),
        ensures
            r == self.any_price_of(name@),
    {
        match self.lookup_price(name) {
            Some(p) => Some(p),
            None => {
                let mut i: usize = self.ignored.len();
                let ghost s = self.ignored_view();
                assert(s.subrange(0, s.len() as int) =~= s);
                while i > 0
                    invariant
                        i <= self.ignored@.len(),
                        s == self.ignored_view(),
                        !has_name(self.items_view(), name@),
                        last_named(s, name@) == last_named(s.subrange(0, i as int), name@),
                    decreases i,
                {
                    let ghost t = s.subrange(0, i as int);
                    assert(t.drop_last() =~= s.subrange(0, i - 1));
                    assert(t.last() == self.ignored@[i - 1]@);
                    if self.ignored[i - 1].name == *name {
                        assert(last_named(t, name@) == Some(t.last()));
                        return Some(self.ignored[i - 1].item_prices);
                    }
                    i = i - 1;
                }
                assert(s.subrange(0, 0) =~= Seq::<ItemView>::empty());
                None
            },
        }
    }

    /// Sets aside every tradable item whose name is in `names`; other names are ignored.
    pub fn ignore_items(&mut self, names: &Vec<String>)
        requires
            old(self).wf(),
        ensures
            final(self).wf(),
            final(self).items_view() == kept(old(self).items_view(), name_set(names@)),
            final(self).ignored_view() == old(self).ignored_view() + dropped(old(self).items_view(), name_set(names@)),
    {
        let ghost ns = name_set(names@);
        let ghost src = self.items_view();
        let mut keep: Vec<Item> = Vec::new();
        let mut drop: Vec<Item> = Vec::new();
        let mut i: usize = 0;
        while i < self.items.len()
            invariant
                i <= self.items@.len(),
                src == self.items_view(),
                ns == name_set(names@),
                views(keep@) == kept(src.subrange(0, i as int), ns),
                views(drop@) == dropped(src.subrange(0, i as int), ns),
            decreases self.items@.len() - i,
        {
            assert(src.subrange(0, i as int + 1).drop_last() =~= src.subrange(0, i as int));
            assert(src[i as int] == self.items@[i as int]@);
            assert(src.subrange(0, i as int + 1).last() == src[i as int]);
            let listed = Self::listed(names, &self.items[i].name);
            let ghost pk = views(keep@);
            let ghost pd = views(drop@);
            if listed {
                drop.push(self.items[i].duplicate());
                assert(views(drop@) =~= pd.push(src[i as int]));
                assert(ns.contains(src[i as int].name));
                assert(dropped(src.subrange(0, i as int + 1), ns) == pd.push(src[i as int]));
                assert(kept(src.subrange(0, i as int + 1), ns) == pk);
            } else {
                keep.push(self.items[i].duplicate());
                assert(views(keep@) =~= pk.push(src[i as int]));
                assert(!ns.contains(src[i as int].name));
                assert(kept(src.subrange(0, i as int + 1), ns) == pk.push(src[i as int]));
                assert(dropped(src.subrange(0, i as int + 1), ns) == pd);
            }
            i = i + 1;
        }
        assert(src.subrange(0, src.len() as int) =~= src);
        let ghost old_ignored = self.ignored_view();
        let ghost old_items = self.items@;
        let mut j: usize = 0;
        while j < drop.len()
            invariant
                j <= drop@.len(),
                self.ignored_view() == old_ignored + views(drop@).subrange(0, j as int),
                self.items@ == old_items,
            decreases drop@.len() - j,
        {
            let ghost before = self.ignored_view();
            self.ignored.push(drop[j].duplicate());
            assert(self.ignored_view() =~= before.push(views(drop@)[j as int]));
            assert(views(drop@).subrange(0, j as int + 1) =~= views(drop@).subrange(0, j as int).push(views(drop@)[j as int]));
            assert(self.ignored_view() =~= old_ignored + views(drop@).subrange(0, j as int + 1));
            j = j + 1;
        }
        assert(views(drop@).subrange(0, drop@.len() as int) =~= views(drop@));
        self.items = keep;
        proof {
            lemma_kept_distinct(src, ns);
            lemma_kept_in(src, ns);
            let k = self.items_view();
            assert forall|a: int| 0 <= a < self.items@.len() implies !(#[trigger] self.items@[a]).item_prices.spec_invalid() by {
                assert(k[a] == self.items@[a]@);
                assert(k.contains(k[a]));
                let b = choose|b: int| 0 <= b < src.len() && src[b] == k[a];
                assert(src[b] == old_items[b]@);
            }
        }
    }

    /// Whether `name` is one of `names`.
    fn listed(names: &Vec<String>, name: &String) -> (r: bool)
        ensures
            r == name_set(names@).contains(name@),
    {
        let mut i: usize = 0;
        while i < names.len()
            invariant
                i <= names@.len(),
                forall|k: int| 0 <= k < i ==> (#[trigger] names@[k])@ != name@,
            decreases names.len() - i,
        {
            if names[i] == *name {
                assert(name_set(names@).contains(name@)) by {
                    assert(names@[i as int]@ == name@);
                }
                return true;
            }
            i = i + 1;
        }
        false
    }

    /// Builds the catalog from raw prices keyed by item id and an id-to-name
    /// table; items with unusable prices are left out, as in `new`.
    pub fn initialize(prices: &Vec<(String, PriceDatum)>, id_to_name: &Vec<(String, String)>) -> (r: ItemSearch)
        ensures
            r.wf(),
            r.items_view() == admitted(joined(price_rows(prices@), name_rows(id_to_name@))),
            r.ignored@.len() == 0,
    {
        let ghost pr = price_rows(prices@);
        let ghost t = name_rows(id_to_name@);
        let mut cands: Vec<Item> = Vec::new();
        let mut i: usize = 0;
        assert(pr.subrange(0, 0) =~= Seq::<(Seq<char>, PriceDatum)>::empty());
        assert(views(cands@) =~= Seq::<ItemView>::empty());
        while i < prices.len()
            invariant
                i <= prices@.len(),
                pr == price_rows(prices@),
                t == name_rows(id_to_name@),
                views(cands@) == joined(pr.subrange(0, i as int), t),
            decreases prices.len() - i,
        {
            let ghost sub = pr.subrange(0, i as int + 1);
            assert(sub.drop_last() =~= pr.subrange(0, i as int));
            assert(sub.last() == (prices@[i as int].0@, prices@[i as int].1));
            let ghost prev = views(cands@);
            match Self::name_for_id(id_to_name, &prices[i].0) {
                Some(n) => {
                    cands.push(Item::new(n, prices[i].0.clone(), prices[i].1));
                    assert(views(cands@) =~= prev.push(ItemView { name: n@, id: prices@[i as int].0@, price: prices@[i as int].1 }));
                },
                None => {},
            }
            i = i + 1;
        }
        assert(pr.subrange(0, pr.len() as int) =~= pr);
        Self::new(cands)
    }

    fn name_for_id(table: &Vec<(String, String)>, id: &String) -> (r: Option<String>)
        ensures
            match r {
                Some(n) => table_name(name_rows(table@), id@) == Some(n@),
                None => table_name(name_rows(table@), id@) is None,
            },
    {
        let ghost t = name_rows(table@);
        let mut i: usize = table.len();
        assert(t.subrange(0, t.len() as int) =~= t);
        while i > 0
            invariant
                i <= table@.len(),
                t == name_rows(table@),
                table_name(t, id@) == table_name(t.subrange(0, i as int), id@),
            decreases i,
        {
            let ghost u = t.subrange(0, i as int);
            assert(u.drop_last() =~= t.subrange(0, i - 1));
            assert(u.last() == (table@[i - 1].0@, table@[i - 1].1@));
            if table[i - 1].0 == *id {
                return Some(table[i - 1].1.clone());
            }
            i = i - 1;
        }
        assert(t.subrange(0, 0) =~= Seq::<(Seq<char>, Seq<char>)>::empty());
        None
    }

    /// Index of the item named `name` in `v`, if any.
    fn find_name(v: &Vec<Item>, name: &String) -> (r: Option<usize>)
        ensures
            match r {
                Some(k) => k < v@.len() && v@[k as int].name@ == name@,
                None => !has_name(views(v@), name@),
            },
    {
        let mut i: usize = 0;
        while i < v.len()
            invariant
                i <= v@.len(),
                forall|k: int| 0 <= k < i ==> (#[trigger] v@[k]).name@ != name@,
            decreases v.len() - i,
        {
            if v[i].name == *name {
                return Some(i);
            }
            i = i + 1;
        }
        assert forall|k: int| 0 <= k < views(v@).len() implies (#[trigger] views(v@)[k]).name != name@ by {
            assert(views(v@)[k] == v@[k]@);
        }
        None
    }

    /// Index of the item whose id is `id` in `v`, if any.
    fn find_id(v: &Vec<Item>, id: &String) -> (r: Option<usize>)
        ensures
            match r {
                Some(k) => k < v@.len() && v@[k as int].item_id@ == id@,
                None => !has_id(views(v@), id@),
            },
    {
        let mut i: usize = 0;
        while i < v.len()
            invariant
                i <= v@.len(),
                forall|k: int| 0 <= k < i ==> (#[trigger] v@[k]).item_id@ != id@,
            decreases v.len() - i,
        {
            if v[i].item_id == *id {
                return Some(i);
            }
            i = i + 1;
        }
        assert forall|k: int| 0 <= k < views(v@).len() implies (#[trigger] views(v@)[k]).id != id@ by {
            assert(views(v@)[k] == v@[k]@);
        }
        None
    }
}

} // verus!
