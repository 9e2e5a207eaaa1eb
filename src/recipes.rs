use vstd::prelude::*;

verus! {

/// Duration of one batch of a recipe, in whole seconds, or `Invalid` when the
/// source value was missing or negative.
#[derive(Debug, Clone, Copy, PartialEq, Eq, Structural)]
pub enum RecipeTime {
    Time(u64),
    Invalid,
}

/// Three-way decoding of a recipe's time field: absent or negative is `Invalid`.
pub open spec fn decode_time(secs: Option<i64>) -> RecipeTime {
    match secs {
        None => RecipeTime::Invalid,
        Some(s) => if s < 0 {
            RecipeTime::Invalid
        } else {
            RecipeTime::Time(s as u64)
        },
    }
}

impl RecipeTime {
    pub fn decode(secs: Option<i64>) -> (r: RecipeTime)
        ensures
            r == decode_time(secs),
    {
        match secs {
            None => RecipeTime::Invalid,
            Some(s) => RecipeTime::from(s),
        }
    }

    pub fn isvalid(&self) -> (r: bool)
        ensures
            r == (*self is Time),
    {
        match self {
            RecipeTime::Invalid => false,
            RecipeTime::Time(_) => true,
        }
    }
}

impl Default for RecipeTime {
    fn default() -> (r: RecipeTime)
        ensures
            r == RecipeTime::Invalid,
    {
        RecipeTime::Invalid
    }
}

impl From<i64> for RecipeTime {
    fn from(secs: i64) -> (r: RecipeTime) {
        if secs < 0 {
            RecipeTime::Invalid
        } else {
            RecipeTime::Time(secs as u64)
        }
    }
}

impl vstd::std_specs::convert::FromSpecImpl<i64> for RecipeTime {
    open spec fn obeys_from_spec() -> bool {
        true
    }

    open spec fn from_spec(secs: i64) -> RecipeTime {
        decode_time(Some(secs))
    }
}

/// A conversion of priced inputs into priced outputs; each line is an item
/// name and a quantity.
#[derive(Debug)]
pub struct Recipe {
    pub name: String,
    pub inputs: Vec<(String, u64)>,
    pub outputs: Vec<(String, u64)>,
    pub time: RecipeTime,
}

pub struct RecipeView {
    pub name: Seq<char>,
    pub inputs: Seq<(Seq<char>, u64)>,
    pub outputs: Seq<(Seq<char>, u64)>,
    pub time: RecipeTime,
}

pub open spec fn lines_view(v: Seq<(String, u64)>) -> Seq<(Seq<char>, u64)> {
    v.map_values(|l: (String, u64)| (l.0@, l.1))
}

impl View for Recipe {
    type V = RecipeView;

    open spec fn view(&self) -> RecipeView {
        RecipeView {
            name: self.name@,
            inputs: lines_view(self.inputs@),
            outputs: lines_view(self.outputs@),
            time: self.time,
        }
    }
}

impl Recipe {
    pub fn new(name: String, inputs: Vec<(String, u64)>, outputs: Vec<(String, u64)>, time: RecipeTime) -> (r: Recipe)
        ensures
            r.name@ == name@,
            r.inputs@ == inputs@,
            r.outputs@ == outputs@,
            r.time == time,
    {
        Recipe { name, inputs, outputs, time }
    }

    pub fn isvalid(&self) -> (r: bool)
        ensures
            r == (self.time is Time),
    {
        self.time.isvalid()
    }
}

pub open spec fn has_recipe(s: Seq<RecipeView>, n: Seq<char>) -> bool {
    exists|i: int| 0 <= i < s.len() && (#[trigger] s[i]).name == n
}

/// Position of the recipe named `n`; meaningful when `has_recipe(s, n)`.
pub open spec fn recipe_index(s: Seq<RecipeView>, n: Seq<char>) -> int {
    choose|i: int| 0 <= i < s.len() && (#[trigger] s[i]).name == n
}

pub open spec fn recipe_names_distinct(s: Seq<RecipeView>) -> bool {
    forall|i: int, j: int| 0 <= i < s.len() && 0 <= j < s.len() && i != j ==> (#[trigger] s[i]).name != (#[trigger] s[j]).name
}

pub open spec fn book_get(s: Seq<RecipeView>, n: Seq<char>) -> Option<RecipeView> {
    if has_recipe(s, n) {
        Some(s[recipe_index(s, n)])
    } else {
        None
    }
}

/// Insert-or-replace by name.
pub open spec fn book_insert(s: Seq<RecipeView>, r: RecipeView) -> Seq<RecipeView> {
    if has_recipe(s, r.name) {
        s.update(recipe_index(s, r.name), r)
    } else {
        s.push(r)
    }
}

pub open spec fn book_remove(s: Seq<RecipeView>, n: Seq<char>) -> Seq<RecipeView> {
    if has_recipe(s, n) {
        s.remove(recipe_index(s, n))
    } else {
        s
    }
}

pub open spec fn recipe_views(v: Seq<Recipe>) -> Seq<RecipeView> {
    v.map_values(|r: Recipe| r@)
}

/// Inserts the recipes of `l` one after another, first to last.
pub open spec fn book_insert_all(s: Seq<RecipeView>, l: Seq<RecipeView>) -> Seq<RecipeView>
    decreases l.len(),
{
    if l.len() == 0 {
        s
    } else {
        book_insert_all(book_insert(s, l[0]), l.drop_first())
    }
}

/// Adding a recipe and then asking for its name gives it back; and where the
/// name was taken, the book keeps its size.
pub proof fn lemma_insert_then_get(s: Seq<RecipeView>, r: RecipeView)
    requires
        recipe_names_distinct(s),
    ensures
        recipe_names_distinct(book_insert(s, r)),
        book_get(book_insert(s, r), r.name) == Some(r),
        has_recipe(s, r.name) ==> book_insert(s, r).len() == s.len(),
        !has_recipe(s, r.name) ==> book_insert(s, r).len() == s.len() + 1,
{
    let t = book_insert(s, r);
    if has_recipe(s, r.name) {
        let k = recipe_index(s, r.name);
        assert(t[k] == r);
        assert forall|i: int, j: int| 0 <= i < t.len() && 0 <= j < t.len() && i != j
            implies (#[trigger] t[i]).name != (#[trigger] t[j]).name by {
            if i != k && j != k {
                assert(t[i] == s[i] && t[j] == s[j]);
            } else if i == k {
                assert(t[j] == s[j]);
            } else {
                assert(t[i] == s[i]);
            }
        }
        let c = recipe_index(t, r.name);
        assert(t[c].name == r.name);
    } else {
        let k = s.len() as int;
        assert(t[k] == r);
        assert forall|i: int, j: int| 0 <= i < t.len() && 0 <= j < t.len() && i != j
            implies (#[trigger] t[i]).name != (#[trigger] t[j]).name by {
            if i != k && j != k {
                assert(t[i] == s[i] && t[j] == s[j]);
            } else if i == k {
                assert(t[j] == s[j]);
            } else {
                assert(t[i] == s[i]);
            }
        }
        let c = recipe_index(t, r.name);
        assert(t[c].name == r.name);
    }
}

/// The recipes, each under a name that no other recipe of the book has.
pub struct RecipeBook {
    pub recipes: Vec<Recipe>,
}

impl RecipeBook {
    pub open spec fn view_seq(&self) -> Seq<RecipeView> {
        recipe_views(self.recipes@)
    }

    pub open spec fn wf(&self) -> bool {
        recipe_names_distinct(self.view_seq())
    }

    /// A book holding `recipes`; of several recipes under one name the last one stays.
    pub fn new(recipes: Vec<Recipe>) -> (r: RecipeBook)
        ensures
            r.wf(),
            r.view_seq() == book_insert_all(Seq::empty(), recipe_views(recipes@)),
    {
        let mut book = RecipeBook { recipes: Vec::new() };
        assert(book.view_seq() =~= Seq::<RecipeView>::empty());
        book.add_from_list(recipes);
        book
    }

    /// Index of the recipe named `name`, if any.
    fn find(&self, name: &String) -> (r: Option<usize>)
        requires
            self.wf(),
        ensures
            match r {
                Some(k) => has_recipe(self.view_seq(), name@) && k as int == recipe_index(self.view_seq(), name@)
                    && k < self.recipes@.len(),
                None => !has_recipe(self.view_seq(), name@),
            },
    {
        let mut i: usize = 0;
        while i < self.recipes.len()
            invariant
                i <= self.recipes@.len(),
                self.wf(),
                forall|k: int| 0 <= k < i ==> (#[trigger] self.recipes@[k]).name@ != name@,
            decreases self.recipes.len() - i,
        {
            if self.recipes[i].name == *name {
                proof {
                    let s = self.view_seq();
                    assert(s[i as int] == self.recipes@[i as int]@);
                    assert(s[i as int].name == name@);
                    assert(has_recipe(s, name@));
                    let c = recipe_index(s, name@);
                    assert(s[c].name == name@);
                    assert(c == i);
                }
                return Some(i);
            }
            i = i + 1;
        }
        proof {
            let s = self.view_seq();
            assert forall|k: int| 0 <= k < s.len() implies (#[trigger] s[k]).name != name@ by {
                assert(s[k] == self.recipes@[k]@);
            }
        }
        None
    }

    /// Inserts `recipe` under its name and returns the recipe it replaced.
    pub fn add_recipe(&mut self, recipe: Recipe) -> (r: Option<Recipe>)
        requires
            old(self).wf(),
        ensures
            final(self).wf(),
            final(self).view_seq() == book_insert(old(self).view_seq(), recipe@),
            match r {
                Some(p) => book_get(old(self).view_seq(), recipe@.name) == Some(p@),
                None => book_get(old(self).view_seq(), recipe@.name) is None,
            },
    {
        let ghost s = self.view_seq();
        let ghost rv = recipe@;
        proof {
            lemma_insert_then_get(s, rv);
        }
        match self.find(&recipe.name) {
            Some(k) => {
                self.recipes.push(recipe);
                let prev = self.recipes.swap_remove(k);
                assert(self.view_seq() =~= s.update(k as int, rv));
                Some(prev)
            },
            None => {
                self.recipes.push(recipe);
                assert(self.view_seq() =~= s.push(rv));
                None
            },
        }
    }

    /// Adds each recipe in turn.
    pub fn add_from_list(&mut self, recipe_list: Vec<Recipe>)
        requires
            old(self).wf(),
        ensures
            final(self).wf(),
            final(self).view_seq() == book_insert_all(old(self).view_seq(), recipe_views(recipe_list@)),
    {
        let ghost goal = book_insert_all(self.view_seq(), recipe_views(recipe_list@));
        let mut list = recipe_list;
        while list.len() > 0
            invariant
                self.wf(),
                book_insert_all(self.view_seq(), recipe_views(list@)) == goal,
            decreases list.len(),
        {
            let ghost before = recipe_views(list@);
            let recipe = list.remove(0);
            assert(recipe_views(list@) =~= before.drop_first());
            assert(before[0] == recipe@);
            self.add_recipe(recipe);
        }
        assert(recipe_views(list@) =~= Seq::<RecipeView>::empty());
    }

    /// Takes out the recipe named `recipe_name`, if there is one.
    pub fn remove_recipe(&mut self, recipe_name: &String) -> (r: Option<Recipe>)
        requires
            old(self).wf(),
        ensures
            final(self).wf(),
            final(self).view_seq() == book_remove(old(self).view_seq(), recipe_name@),
            match r {
                Some(p) => book_get(old(self).view_seq(), recipe_name@) == Some(p@),
                None => book_get(old(self).view_seq(), recipe_name@) is None,
            },
    {
        let ghost s = self.view_seq();
        match self.find(recipe_name) {
            Some(k) => {
                let prev = self.recipes.remove(k);
                assert(self.view_seq() =~= s.remove(k as int));
                proof {
                    let t = self.view_seq();
                    assert forall|i: int, j: int| 0 <= i < t.len() && 0 <= j < t.len() && i != j
                        implies (#[trigger] t[i]).name != (#[trigger] t[j]).name by {
                        let a = if i < k { i } else { i + 1 };
                        let b = if j < k { j } else { j + 1 };
                        assert(t[i] == s[a] && t[j] == s[b]);
                    }
                }
                Some(prev)
            },
            None => None,
        }
    }

    pub fn get_recipe(&self, recipe_name: &String) -> (r: Option<&Recipe>)
        requires
            self.wf(),
        ensures
            match r {
                Some(p) => book_get(self.view_seq(), recipe_name@) == Some(p@),
                None => book_get(self.view_seq(), recipe_name@) is None,
            },
    {
        match self.find(recipe_name) {
            Some(k) => Some(&self.recipes[k]),
            None => None,
        }
    }

    pub fn len(&self) -> (r: usize)
        ensures
            r == self.recipes@.len(),
    {
        self.recipes.len()
    }
}

} // verus!
