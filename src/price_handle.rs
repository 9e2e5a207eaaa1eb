use vstd::prelude::*;
use vstd::utf8::encode_utf8;

use crate::data_types::PriceDatum;
use crate::item_search::ItemSearch;
use crate::pareto_sort::{ConfigError, ScoreWeights};
use crate::recipes::{lines_view, Recipe, RecipeBook, RecipeTime, RecipeView};

verus! {

/// One ranked recipe: per-batch cost and revenue, gain per batch and over the
/// whole budget, batch time in seconds, GP/h and score. `hidden` marks an
/// outcome that needed the price of an item set aside.
#[derive(Debug)]
pub struct RecipeOutcome {
    pub name: String,
    pub cost: i128,
    pub revenue: i128,
    pub loss_gain: i128,
    pub total_loss_gain: i128,
    pub time: u64,
    pub gp_per_hour: i128,
    pub score: i128,
    pub hidden: bool,
}

pub struct OutcomeView {
    pub name: Seq<char>,
    pub cost: i128,
    pub revenue: i128,
    pub loss_gain: i128,
    pub total_loss_gain: i128,
    pub time: u64,
    pub gp_per_hour: i128,
    pub score: i128,
    pub hidden: bool,
}

impl View for RecipeOutcome {
    type V = OutcomeView;

    open spec fn view(&self) -> OutcomeView {
        OutcomeView {
            name: self.name@,
            cost: self.cost,
            revenue: self.revenue,
            loss_gain: self.loss_gain,
            total_loss_gain: self.total_loss_gain,
            time: self.time,
            gp_per_hour: self.gp_per_hour,
            score: self.score,
            hidden: self.hidden,
        }
    }
}

pub open spec fn outcome_views(v: Seq<RecipeOutcome>) -> Seq<OutcomeView> {
    v.map_values(|o: RecipeOutcome| o@)
}

/// Strict lexicographic order on byte strings.
pub open spec fn bytes_lt(a: Seq<u8>, b: Seq<u8>) -> bool
    decreases a.len(),
{
    if a.len() == 0 {
        b.len() > 0
    } else if b.len() == 0 {
        false
    } else if a[0] != b[0] {
        a[0] < b[0]
    } else {
        bytes_lt(a.drop_first(), b.drop_first())
    }
}

/// Names are ordered by their UTF-8 bytes, which is the order of their characters.
pub open spec fn name_lt(a: Seq<char>, b: Seq<char>) -> bool {
    bytes_lt(encode_utf8(a), encode_utf8(b))
}

/// Whether `a` is listed strictly before `b`: higher score first (lower first
/// when `reverse`), equal scores by name ascending.
pub open spec fn goes_before(a: OutcomeView, b: OutcomeView, reverse: bool) -> bool {
    (if reverse { a.score < b.score } else { a.score > b.score })
        || (a.score == b.score && name_lt(a.name, b.name))
}

pub open spec fn sorted(s: Seq<OutcomeView>, reverse: bool) -> bool {
    forall|i: int, j: int| 0 <= i < j < s.len() ==> !goes_before(#[trigger] s[j], #[trigger] s[i], reverse)
}

/// Where `x` goes in `s`: after every entry that it does not go before.
pub open spec fn insert_pos(s: Seq<OutcomeView>, x: OutcomeView, reverse: bool) -> int
    decreases s.len(),
{
    if s.len() == 0 {
        0
    } else if goes_before(x, s[0], reverse) {
        0
    } else {
        1 + insert_pos(s.drop_first(), x, reverse)
    }
}

pub open spec fn sorted_insert(s: Seq<OutcomeView>, x: OutcomeView, reverse: bool) -> Seq<OutcomeView> {
    s.insert(insert_pos(s, x, reverse), x)
}

pub proof fn lemma_bytes_lt_asym(a: Seq<u8>, b: Seq<u8>)
    ensures
        !(bytes_lt(a, b) && bytes_lt(b, a)),
    decreases a.len(),
{
    if a.len() > 0 && b.len() > 0 && a[0] == b[0] {
        lemma_bytes_lt_asym(a.drop_first(), b.drop_first());
    }
}

pub proof fn lemma_bytes_lt_trans(a: Seq<u8>, b: Seq<u8>, c: Seq<u8>)
    requires
        bytes_lt(a, b),
        bytes_lt(b, c),
    ensures
        bytes_lt(a, c),
    decreases a.len(),
{
    if a.len() > 0 && b.len() > 0 && c.len() > 0 && a[0] == b[0] && b[0] == c[0] {
        lemma_bytes_lt_trans(a.drop_first(), b.drop_first(), c.drop_first());
    }
}

proof fn lemma_goes_before_order(a: OutcomeView, b: OutcomeView, c: OutcomeView, reverse: bool)
    ensures
        !(goes_before(a, b, reverse) && goes_before(b, a, reverse)),
        goes_before(a, b, reverse) && goes_before(b, c, reverse) ==> goes_before(a, c, reverse),
{
    lemma_bytes_lt_asym(encode_utf8(a.name), encode_utf8(b.name));
    if name_lt(a.name, b.name) && name_lt(b.name, c.name) {
        lemma_bytes_lt_trans(encode_utf8(a.name), encode_utf8(b.name), encode_utf8(c.name));
    }
}

proof fn lemma_insert_pos(s: Seq<OutcomeView>, x: OutcomeView, reverse: bool)
    ensures
        0 <= insert_pos(s, x, reverse) <= s.len(),
        forall|j: int| 0 <= j < insert_pos(s, x, reverse) ==> !goes_before(x, #[trigger] s[j], reverse),
        insert_pos(s, x, reverse) < s.len() ==> goes_before(x, s[insert_pos(s, x, reverse)], reverse),
    decreases s.len(),
{
    if s.len() > 0 && !goes_before(x, s[0], reverse) {
        let t = s.drop_first();
        lemma_insert_pos(t, x, reverse);
        assert forall|j: int| 0 <= j < insert_pos(s, x, reverse) implies !goes_before(x, #[trigger] s[j], reverse) by {
            if j > 0 {
                assert(s[j] == t[j - 1]);
            }
        }
    }
}

/// Inserting into a sorted sequence keeps it sorted.
pub proof fn lemma_insert_sorted(s: Seq<OutcomeView>, x: OutcomeView, reverse: bool)
    requires
        sorted(s, reverse),
    ensures
        sorted(sorted_insert(s, x, reverse), reverse),
{
    lemma_insert_pos(s, x, reverse);
    let k = insert_pos(s, x, reverse);
    let t = sorted_insert(s, x, reverse);
    assert forall|i: int, j: int| 0 <= i < j < t.len() implies !goes_before(#[trigger] t[j], #[trigger] t[i], reverse) by {
        if j < k {
            assert(t[i] == s[i] && t[j] == s[j]);
        } else if j == k {
            assert(t[i] == s[i] && t[j] == x);
        } else if i == k {
            assert(t[j] == s[j - 1] && t[i] == x);
            lemma_goes_before_order(s[j - 1], x, s[k], reverse);
            lemma_goes_before_order(x, s[k], s[j - 1], reverse);
            if j - 1 > k {
                assert(!goes_before(s[j - 1], s[k], reverse));
            }
        } else if i < k {
            assert(t[i] == s[i] && t[j] == s[j - 1]);
        } else {
            assert(t[i] == s[i - 1] && t[j] == s[j - 1]);
        }
    }
}

/// What `sorted_insert` holds: what was there before, and `x`.
pub proof fn lemma_insert_members(s: Seq<OutcomeView>, x: OutcomeView, reverse: bool)
    ensures
        forall|y: OutcomeView| #[trigger] sorted_insert(s, x, reverse).contains(y) ==> s.contains(y) || y == x,
{
    lemma_insert_pos(s, x, reverse);
    let k = insert_pos(s, x, reverse);
    let t = sorted_insert(s, x, reverse);
    assert forall|y: OutcomeView| #[trigger] t.contains(y) implies s.contains(y) || y == x by {
        let i = choose|i: int| 0 <= i < t.len() && t[i] == y;
        if i < k {
            assert(s[i] == y);
        } else if i > k {
            assert(s[i - 1] == y);
        }
    }
}

/// `name_lt` on the two names.
pub fn name_less(a: &String, b: &String) -> (r: bool)
    ensures
        r == name_lt(a@, b@),
{
    let x = a.as_str().as_bytes();
    let y = b.as_str().as_bytes();
    let ghost xs = x@;
    let ghost ys = y@;
    let mut i: usize = 0;
    assert(xs.subrange(0, xs.len() as int) =~= xs);
    assert(ys.subrange(0, ys.len() as int) =~= ys);
    while i < x.len() && i < y.len() && x[i] == y[i]
        invariant
            xs == x@,
            ys == y@,
            i <= xs.len(),
            i <= ys.len(),
            bytes_lt(xs, ys) == bytes_lt(xs.subrange(i as int, xs.len() as int), ys.subrange(i as int, ys.len() as int)),
        decreases x.len() - i,
    {
        let ghost xa = xs.subrange(i as int, xs.len() as int);
        let ghost ya = ys.subrange(i as int, ys.len() as int);
        assert(xa.drop_first() =~= xs.subrange(i + 1, xs.len() as int));
        assert(ya.drop_first() =~= ys.subrange(i + 1, ys.len() as int));
        i = i + 1;
    }
    let ghost xa = xs.subrange(i as int, xs.len() as int);
    let ghost ya = ys.subrange(i as int, ys.len() as int);
    if i == x.len() {
        i < y.len()
    } else if i == y.len() {
        false
    } else {
        assert(xa[0] == x@[i as int] && ya[0] == y@[i as int]);
        x[i] < y[i]
    }
}

fn outcome_goes_before(a: &RecipeOutcome, b: &RecipeOutcome, reverse: bool) -> (r: bool)
    ensures
        r == goes_before(a@, b@, reverse),
{
    let better = if reverse { a.score < b.score } else { a.score > b.score };
    better || (a.score == b.score && name_less(&a.name, &b.name))
}

/// Inserts `o` into `out` at its place in the order.
fn insert_sorted(out: &mut Vec<RecipeOutcome>, o: RecipeOutcome, reverse: bool)
    ensures
        outcome_views(final(out)@) == sorted_insert(outcome_views(old(out)@), o@, reverse),
{
    let ghost s = outcome_views(out@);
    let mut j: usize = 0;
    assert(s.subrange(0, s.len() as int) =~= s);
    while j < out.len() && !outcome_goes_before(&o, &out[j], reverse)
        invariant
            s == outcome_views(out@),
            j <= out@.len(),
            insert_pos(s, o@, reverse) == j + insert_pos(s.subrange(j as int, s.len() as int), o@, reverse),
        decreases out.len() - j,
    {
        let ghost t = s.subrange(j as int, s.len() as int);
        assert(t.drop_first() =~= s.subrange(j + 1, s.len() as int));
        assert(t[0] == out@[j as int]@);
        j = j + 1;
    }
    proof {
        let t = s.subrange(j as int, s.len() as int);
        if j < out@.len() {
            assert(t[0] == out@[j as int]@);
        }
    }
    let ghost before = out@;
    out.insert(j, o);
    assert(outcome_views(out@) =~= outcome_views(before).insert(j as int, o@));
}

/// Margins are given in basis points: 100 is one percent.
pub const MARGIN_SCALE: u64 = 10000;

pub const SECONDS_PER_HOUR: u64 = 3600;

#[derive(Debug, Clone, Copy, PartialEq, Eq, Structural)]
pub struct DisplaySettings {
    /// Keep only outcomes whose total loss/gain is positive.
    pub profiting_only: bool,
    /// Also price recipes through items that were set aside, marking them hidden.
    pub show_hidden: bool,
    /// Lowest score first.
    pub reverse: bool,
}

/// Why a recipe has no outcome.
#[derive(Debug, Clone, Copy, PartialEq, Eq, Structural)]
pub enum Exclusion {
    InvalidTime,
    UnknownItem,
    ZeroTime,
    Overflow,
}

pub open spec fn in_i128(x: int) -> bool {
    i128::MIN <= x <= i128::MAX
}

pub open spec fn price_for(c: ItemSearch, n: Seq<char>, any: bool) -> Option<PriceDatum> {
    if any {
        c.any_price_of(n)
    } else {
        c.price_of(n)
    }
}

pub open spec fn lines_resolved(c: ItemSearch, lines: Seq<(Seq<char>, u64)>, any: bool) -> bool {
    forall|i: int| 0 <= i < lines.len() ==> (#[trigger] price_for(c, lines[i].0, any)) is Some
}

/// Quantity times the buy (or sell) price of the line's item.
pub open spec fn line_value(c: ItemSearch, l: (Seq<char>, u64), any: bool, buy: bool) -> int {
    match price_for(c, l.0, any) {
        Some(p) => l.1 * (if buy { p.buy() } else { p.sell() }),
        None => 0,
    }
}

pub open spec fn lines_total(c: ItemSearch, lines: Seq<(Seq<char>, u64)>, any: bool, buy: bool) -> int
    decreases lines.len(),
{
    if lines.len() == 0 {
        0
    } else {
        lines_total(c, lines.drop_last(), any, buy) + line_value(c, lines.last(), any, buy)
    }
}

proof fn lemma_line_value_nonneg(c: ItemSearch, l: (Seq<char>, u64), any: bool, buy: bool)
    ensures
        line_value(c, l, any, buy) >= 0,
{
    match price_for(c, l.0, any) {
        Some(p) => {
            let q = l.1 as int;
            let u = (if buy { p.buy() } else { p.sell() }) as int;
            assert(q * u >= 0) by (nonlinear_arith)
                requires
                    q >= 0,
                    u >= 0,
            ;
        },
        None => {},
    }
}

proof fn lemma_total_prefix(c: ItemSearch, s: Seq<(Seq<char>, u64)>, any: bool, buy: bool, k: int)
    requires
        0 <= k <= s.len(),
    ensures
        0 <= lines_total(c, s.subrange(0, k), any, buy) <= lines_total(c, s, any, buy),
    decreases s.len(),
{
    if s.len() == 0 {
        assert(s.subrange(0, k) =~= s);
    } else if k == s.len() {
        assert(s.subrange(0, k) =~= s);
        lemma_total_prefix(c, s.drop_last(), any, buy, 0);
        lemma_line_value_nonneg(c, s.last(), any, buy);
        assert(s.drop_last().subrange(0, 0) =~= Seq::<(Seq<char>, u64)>::empty());
    } else {
        lemma_total_prefix(c, s.drop_last(), any, buy, k);
        assert(s.drop_last().subrange(0, k) =~= s.subrange(0, k));
        lemma_line_value_nonneg(c, s.last(), any, buy);
    }
}

/// The outcome of one recipe, or why it has none. Exact integer arithmetic;
/// a recipe whose figures leave the range of `i128` is excluded as `Overflow`.
///
/// - cost: inputs at their buy price, raised by the margin;
///   revenue: outputs at their sell price, lowered by the margin;
/// - batches: budget divided by the cost, where a cost of zero counts as one coin;
/// - GP/h and loss/gain per hour round down.
pub open spec fn evaluate(h: PriceHandle, r: RecipeView, w: ScoreWeights, any: bool) -> Result<OutcomeView, Exclusion> {
    let c = h.item_search;
    match r.time {
        RecipeTime::Invalid => Err(Exclusion::InvalidTime),
        RecipeTime::Time(t) => if !lines_resolved(c, r.inputs, any) || !lines_resolved(c, r.outputs, any) {
            Err(Exclusion::UnknownItem)
        } else if t == 0 {
            Err(Exclusion::ZeroTime)
        } else {
            let cb = lines_total(c, r.inputs, any, true);
            let rb = lines_total(c, r.outputs, any, false);
            let cm = cb * (MARGIN_SCALE + h.percent_margin);
            let rm = rb * (MARGIN_SCALE - h.percent_margin);
            let cost = cm / (MARGIN_SCALE as int);
            let revenue = rm / (MARGIN_SCALE as int);
            let lg = revenue - cost;
            let batches = (h.coins as int) / (if cost > 0 { cost } else { 1 });
            let total = lg * batches;
            let th = total * SECONDS_PER_HOUR;
            let gph = th / (t as int);
            let lh = lg * SECONDS_PER_HOUR;
            let rate = lh / (t as int);
            let s1 = w.margin_to_time * rate;
            let s2 = w.time * t;
            let g = w.gp_per_hour * gph;
            let s3 = g / (w.budget as int);
            let s12 = s1 + s2;
            let score = s12 + s3;
            if in_i128(cb) && in_i128(rb) && in_i128(cm) && in_i128(rm) && in_i128(cost) && in_i128(revenue)
                && in_i128(lg) && in_i128(batches) && in_i128(total) && in_i128(th) && in_i128(gph) && in_i128(lh)
                && in_i128(rate) && in_i128(s1) && in_i128(s2) && in_i128(g) && in_i128(s3) && in_i128(s12)
                && in_i128(score) {
                Ok(OutcomeView {
                    name: r.name,
                    cost: cost as i128,
                    revenue: revenue as i128,
                    loss_gain: lg as i128,
                    total_loss_gain: total as i128,
                    time: t,
                    gp_per_hour: gph as i128,
                    score: score as i128,
                    hidden: any && !(lines_resolved(c, r.inputs, false) && lines_resolved(c, r.outputs, false)),
                })
            } else {
                Err(Exclusion::Overflow)
            }
        },
    }
}

pub open spec fn shown(o: OutcomeView, d: DisplaySettings) -> bool {
    !d.profiting_only || o.total_loss_gain > 0
}

/// The report over the recipes `s`: each recipe with an outcome that is shown,
/// in the order of `goes_before`.
pub open spec fn ranked(h: PriceHandle, w: ScoreWeights, d: DisplaySettings, s: Seq<RecipeView>) -> Seq<OutcomeView>
    decreases s.len(),
{
    if s.len() == 0 {
        Seq::empty()
    } else {
        let prev = ranked(h, w, d, s.drop_last());
        match evaluate(h, s.last(), w, d.show_hidden) {
            Ok(o) => if shown(o, d) {
                sorted_insert(prev, o, d.reverse)
            } else {
                prev
            },
            Err(_) => prev,
        }
    }
}

/// Every outcome in a report is the outcome of one of the recipes.
pub proof fn lemma_ranked_from_recipes(h: PriceHandle, w: ScoreWeights, d: DisplaySettings, s: Seq<RecipeView>)
    ensures
        forall|o: OutcomeView| #[trigger] ranked(h, w, d, s).contains(o) ==> exists|k: int|
            0 <= k < s.len() && evaluate(h, #[trigger] s[k], w, d.show_hidden) == Ok::<OutcomeView, Exclusion>(o),
    decreases s.len(),
{
    if s.len() > 0 {
        let d0 = s.drop_last();
        lemma_ranked_from_recipes(h, w, d, d0);
        let prev = ranked(h, w, d, d0);
        assert forall|o: OutcomeView| #[trigger] ranked(h, w, d, s).contains(o) implies exists|k: int|
            0 <= k < s.len() && evaluate(h, #[trigger] s[k], w, d.show_hidden) == Ok::<OutcomeView, Exclusion>(o) by {
            match evaluate(h, s.last(), w, d.show_hidden) {
                Ok(x) => {
                    if shown(x, d) {
                        lemma_insert_members(prev, x, d.reverse);
                    }
                    if o == x {
                        assert(s[s.len() - 1] == s.last());
                    } else {
                        let k = choose|k: int| 0 <= k < d0.len() && evaluate(h, #[trigger] d0[k], w, d.show_hidden) == Ok::<OutcomeView, Exclusion>(o);
                        assert(s[k] == d0[k]);
                    }
                },
                Err(_) => {
                    let k = choose|k: int| 0 <= k < d0.len() && evaluate(h, #[trigger] d0[k], w, d.show_hidden) == Ok::<OutcomeView, Exclusion>(o);
                    assert(s[k] == d0[k]);
                },
            }
        }
    }
}

/// A recipe with an invalid time, or with an input or output that the catalog
/// cannot price, never appears in a report. Without `show_hidden` the catalog
/// prices only tradable items; with it, also items set aside.
pub proof fn lemma_excluded_never_ranked(h: PriceHandle, w: ScoreWeights, d: DisplaySettings)
    requires
        h.wf(),
    ensures
        forall|k: int, o: OutcomeView|
            0 <= k < h.recipe_book.view_seq().len() && #[trigger] ranked(h, w, d, h.recipe_book.view_seq()).contains(o)
            && o.name == (#[trigger] h.recipe_book.view_seq()[k]).name
            ==> {
                let r = h.recipe_book.view_seq()[k];
                &&& r.time is Time
                &&& lines_resolved(h.item_search, r.inputs, d.show_hidden)
                &&& lines_resolved(h.item_search, r.outputs, d.show_hidden)
            },
{
    let s = h.recipe_book.view_seq();
    lemma_ranked_from_recipes(h, w, d, s);
    assert forall|k: int, o: OutcomeView|
        0 <= k < s.len() && #[trigger] ranked(h, w, d, s).contains(o) && o.name == (#[trigger] s[k]).name
        implies {
            let r = s[k];
            &&& r.time is Time
            &&& lines_resolved(h.item_search, r.inputs, d.show_hidden)
            &&& lines_resolved(h.item_search, r.outputs, d.show_hidden)
        } by {
        let j = choose|j: int| 0 <= j < s.len() && evaluate(h, #[trigger] s[j], w, d.show_hidden) == Ok::<OutcomeView, Exclusion>(o);
        assert(s[j].name == o.name);
        assert(j == k);
    }
}

/// A report is sorted by its order.
pub proof fn lemma_ranked_sorted(h: PriceHandle, w: ScoreWeights, d: DisplaySettings, s: Seq<RecipeView>)
    ensures
        sorted(ranked(h, w, d, s), d.reverse),
    decreases s.len(),
{
    if s.len() > 0 {
        lemma_ranked_sorted(h, w, d, s.drop_last());
        match evaluate(h, s.last(), w, d.show_hidden) {
            Ok(x) => {
                if shown(x, d) {
                    lemma_insert_sorted(ranked(h, w, d, s.drop_last()), x, d.reverse);
                }
            },
            Err(_) => {},
        }
    }
}

/// In a report that is not reversed, an outcome listed before another has a
/// score at least as high, and on equal scores a name that is not greater.
pub proof fn lemma_report_order(h: PriceHandle, w: ScoreWeights, d: DisplaySettings, s: Seq<RecipeView>)
    requires
        !d.reverse,
    ensures
        forall|i: int, j: int| 0 <= i < j < ranked(h, w, d, s).len() ==> {
            let a = #[trigger] ranked(h, w, d, s)[i];
            let b = #[trigger] ranked(h, w, d, s)[j];
            &&& a.score >= b.score
            &&& a.score == b.score ==> !name_lt(b.name, a.name)
        },
{
    lemma_ranked_sorted(h, w, d, s);
}

/// Two reports over the same catalog, book, weights and settings are equal.
pub proof fn lemma_report_deterministic(h: PriceHandle, w: ScoreWeights, d: DisplaySettings, a: Seq<OutcomeView>, b: Seq<OutcomeView>)
    requires
        a == ranked(h, w, d, h.recipe_book.view_seq()),
        b == ranked(h, w, d, h.recipe_book.view_seq()),
    ensures
        a == b,
{
}

/// Prices recipes of a book against a catalog, for a budget and a margin.
pub struct PriceHandle {
    pub item_search: ItemSearch,
    pub recipe_book: RecipeBook,
    pub coins: u64,
    /// In basis points, at most `MARGIN_SCALE`.
    pub percent_margin: u64,
}

#[derive(Debug, Clone, Copy, PartialEq, Eq, Structural)]
pub enum HandleError {
    /// The margin is above one hundred percent.
    MarginOutOfRange,
}

impl PriceHandle {
    pub open spec fn wf(&self) -> bool {
        &&& self.item_search.wf()
        &&& self.recipe_book.wf()
        &&& self.percent_margin <= MARGIN_SCALE
    }

    pub fn new(item_search: ItemSearch, recipe_book: RecipeBook, coins: u64, percent_margin: u64) -> (r: Result<PriceHandle, HandleError>)
        requires
            item_search.wf(),
            recipe_book.wf(),
        ensures
            percent_margin > MARGIN_SCALE <==> r is Err,
            r matches Ok(h) ==> h.wf() && h.coins == coins && h.percent_margin == percent_margin
                && h.item_search == item_search && h.recipe_book == recipe_book,
    {
        if percent_margin > MARGIN_SCALE {
            Err(HandleError::MarginOutOfRange)
        } else {
            Ok(PriceHandle { item_search, recipe_book, coins, percent_margin })
        }
    }

    fn price(&self, name: &String, any: bool) -> (r: Option<PriceDatum>)
        requires
            self.wf(),
        ensures
            r == price_for(self.item_search, name@, any),
    {
        if any {
            self.item_search.lookup_any_price(name)
        } else {
            self.item_search.lookup_price(name)
        }
    }

    fn resolved(&self, lines: &Vec<(String, u64)>, any: bool) -> (r: bool)
        requires
            self.wf(),
        ensures
            r == lines_resolved(self.item_search, lines_view(lines@), any),
    {
        let ghost lv = lines_view(lines@);
        let mut i: usize = 0;
        while i < lines.len()
            invariant
                self.wf(),
                lv == lines_view(lines@),
                i <= lines@.len(),
                forall|k: int| 0 <= k < i ==> (#[trigger] price_for(self.item_search, lv[k].0, any)) is Some,
            decreases lines.len() - i,
        {
            assert(lv[i as int].0 == lines@[i as int].0@);
            if self.price(&lines[i].0, any).is_none() {
                return false;
            }
            i = i + 1;
        }
        true
    }

    /// Total of the lines at buy (or sell) prices; `None` when it leaves `i128`.
    fn lines_sum(&self, lines: &Vec<(String, u64)>, any: bool, buy: bool) -> (r: Option<i128>)
        requires
            self.wf(),
            lines_resolved(self.item_search, lines_view(lines@), any),
        ensures
            match r {
                Some(v) => v == lines_total(self.item_search, lines_view(lines@), any, buy),
                None => lines_total(self.item_search, lines_view(lines@), any, buy) > i128::MAX,
            },
    {
        let ghost lv = lines_view(lines@);
        let ghost c = self.item_search;
        let mut acc: i128 = 0;
        let mut i: usize = 0;
        assert(lv.subrange(0, 0) =~= Seq::<(Seq<char>, u64)>::empty());
        while i < lines.len()
            invariant
                self.wf(),
                c == self.item_search,
                lv == lines_view(lines@),
                lines_resolved(c, lv, any),
                i <= lines@.len(),
                acc == lines_total(c, lv.subrange(0, i as int), any, buy),
            decreases lines.len() - i,
        {
            let ghost sub = lv.subrange(0, i as int + 1);
            assert(sub.drop_last() =~= lv.subrange(0, i as int));
            assert(sub.last() == lv[i as int]);
            assert(lv[i as int].0 == lines@[i as int].0@);
            assert(lv[i as int].1 == lines@[i as int].1);
            proof {
                lemma_total_prefix(c, lv, any, buy, i as int + 1);
                lemma_total_prefix(c, lv, any, buy, i as int);
                lemma_line_value_nonneg(c, lv[i as int], any, buy);
            }
            let p = match self.price(&lines[i].0, any) {
                Some(p) => p,
                None => {
                    assert(price_for(c, lv[i as int].0, any) is Some);
                    return None;
                },
            };
            let unit: u64 = if buy { p.buy_price() } else { p.sell_price() };
            let prod = match (lines[i].1 as i128).checked_mul(unit as i128) {
                Some(v) => v,
                None => return None,
            };
            acc = match acc.checked_add(prod) {
                Some(v) => v,
                None => return None,
            };
            i = i + 1;
        }
        assert(lv.subrange(0, lv.len() as int) =~= lv);
        Some(acc)
    }

    /// The outcome of `recipe`, or the reason it has none.
    pub fn recipe_outcome(&self, recipe: &Recipe, weights: &ScoreWeights, show_hidden: bool) -> (r: Result<RecipeOutcome, Exclusion>)
        requires
            self.wf(),
            weights.wf(),
        ensures
            match r {
                Ok(o) => evaluate(*self, recipe@, *weights, show_hidden) == Ok::<OutcomeView, Exclusion>(o@),
                Err(e) => evaluate(*self, recipe@, *weights, show_hidden) == Err::<OutcomeView, Exclusion>(e),
            },
    {
        let t: u64 = match recipe.time {
            RecipeTime::Invalid => return Err(Exclusion::InvalidTime),
            RecipeTime::Time(t) => t,
        };
        if !self.resolved(&recipe.inputs, show_hidden) || !self.resolved(&recipe.outputs, show_hidden) {
            return Err(Exclusion::UnknownItem);
        }
        if t == 0 {
            return Err(Exclusion::ZeroTime);
        }
        let hidden = show_hidden && !(self.resolved(&recipe.inputs, false) && self.resolved(&recipe.outputs, false));
        let cb = match self.lines_sum(&recipe.inputs, show_hidden, true) {
            Some(v) => v,
            None => return Err(Exclusion::Overflow),
        };
        let rb = match self.lines_sum(&recipe.outputs, show_hidden, false) {
            Some(v) => v,
            None => return Err(Exclusion::Overflow),
        };
        let scale: i128 = MARGIN_SCALE as i128;
        let cm = match cb.checked_mul((MARGIN_SCALE + self.percent_margin) as i128) {
            Some(v) => v,
            None => return Err(Exclusion::Overflow),
        };
        let rm = match rb.checked_mul((MARGIN_SCALE - self.percent_margin) as i128) {
            Some(v) => v,
            None => return Err(Exclusion::Overflow),
        };
        let cost = match cm.checked_div_euclid(scale) {
            Some(v) => v,
            None => return Err(Exclusion::Overflow),
        };
        let revenue = match rm.checked_div_euclid(scale) {
            Some(v) => v,
            None => return Err(Exclusion::Overflow),
        };
        let lg = match revenue.checked_sub(cost) {
            Some(v) => v,
            None => return Err(Exclusion::Overflow),
        };
        let per_batch: i128 = if cost > 0 { cost } else { 1 };
        let batches = match (self.coins as i128).checked_div_euclid(per_batch) {
            Some(v) => v,
            None => return Err(Exclusion::Overflow),
        };
        let total = match lg.checked_mul(batches) {
            Some(v) => v,
            None => return Err(Exclusion::Overflow),
        };
        let hour: i128 = SECONDS_PER_HOUR as i128;
        let th = match total.checked_mul(hour) {
            Some(v) => v,
            None => return Err(Exclusion::Overflow),
        };
        let gph = match th.checked_div_euclid(t as i128) {
            Some(v) => v,
            None => return Err(Exclusion::Overflow),
        };
        let lh = match lg.checked_mul(hour) {
            Some(v) => v,
            None => return Err(Exclusion::Overflow),
        };
        let rate = match lh.checked_div_euclid(t as i128) {
            Some(v) => v,
            None => return Err(Exclusion::Overflow),
        };
        let s1 = match (weights.margin_to_time as i128).checked_mul(rate) {
            Some(v) => v,
            None => return Err(Exclusion::Overflow),
        };
        let s2 = match (weights.time as i128).checked_mul(t as i128) {
            Some(v) => v,
            None => return Err(Exclusion::Overflow),
        };
        let g = match (weights.gp_per_hour as i128).checked_mul(gph) {
            Some(v) => v,
            None => return Err(Exclusion::Overflow),
        };
        let s3 = match g.checked_div_euclid(weights.budget as i128) {
            Some(v) => v,
            None => return Err(Exclusion::Overflow),
        };
        let s12 = match s1.checked_add(s2) {
            Some(v) => v,
            None => return Err(Exclusion::Overflow),
        };
        let score = match s12.checked_add(s3) {
            Some(v) => v,
            None => return Err(Exclusion::Overflow),
        };
        Ok(RecipeOutcome {
            name: recipe.name.clone(),
            cost,
            revenue,
            loss_gain: lg,
            total_loss_gain: total,
            time: t,
            gp_per_hour: gph,
            score,
            hidden,
        })
    }

    /// The ranked report over every recipe of the book.
    pub fn all_recipe_overview(&self, weights: &ScoreWeights, display: DisplaySettings) -> (r: Vec<RecipeOutcome>)
        requires
            self.wf(),
            weights.wf(),
        ensures
            outcome_views(r@) == ranked(*self, *weights, display, self.recipe_book.view_seq()),
    {
        let ghost s = self.recipe_book.view_seq();
        let mut out: Vec<RecipeOutcome> = Vec::new();
        let mut i: usize = 0;
        assert(outcome_views(out@) =~= Seq::<OutcomeView>::empty());
        while i < self.recipe_book.recipes.len()
            invariant
                self.wf(),
                weights.wf(),
                s == self.recipe_book.view_seq(),
                i <= s.len(),
                outcome_views(out@) == ranked(*self, *weights, display, s.subrange(0, i as int)),
            decreases s.len() - i,
        {
            let ghost sub = s.subrange(0, i as int + 1);
            assert(sub.drop_last() =~= s.subrange(0, i as int));
            assert(sub.last() == self.recipe_book.recipes@[i as int]@);
            let recipe = &self.recipe_book.recipes[i];
            match self.recipe_outcome(recipe, weights, display.show_hidden) {
                Ok(o) => {
                    if !display.profiting_only || o.total_loss_gain > 0 {
                        insert_sorted(&mut out, o, display.reverse);
                    }
                },
                Err(_) => {},
            }
            i = i + 1;
        }
        assert(s.subrange(0, s.len() as int) =~= s);
        out
    }
}

} // verus!
