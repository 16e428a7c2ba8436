use vstd::prelude::*;
use crate::text::{chars_of, line_spans, lines, span_eq, word_spans, words};

verus! {

/// A generator or a microchip, by its element.
#[derive(Debug, PartialEq, Eq, Hash, Clone)]
pub enum Item {
    Generator(String),
    Chip(String),
}

/// An item as a value: whether it is a generator, and its element.
pub type ItemV = (bool, Seq<char>);

impl View for Item {
    type V = ItemV;

    open spec fn view(&self) -> ItemV {
        match self {
            Item::Generator(s) => (true, s@),
            Item::Chip(s) => (false, s@),
        }
    }
}

/// `a` comes before `b` in dictionary order.
pub open spec fn text_before(a: Seq<char>, b: Seq<char>) -> bool
    decreases a.len(),
{
    if a.len() == 0 {
        b.len() > 0
    } else if b.len() == 0 {
        false
    } else if a[0] != b[0] {
        a[0] < b[0]
    } else {
        text_before(a.drop_first(), b.drop_first())
    }
}

/// The order items are kept in: generators first, then by element.
pub open spec fn item_before(a: ItemV, b: ItemV) -> bool {
    (a.0 && !b.0) || (a.0 == b.0 && text_before(a.1, b.1))
}

proof fn lemma_text_irreflexive(a: Seq<char>)
    ensures
        !text_before(a, a),
    decreases a.len(),
{
    if a.len() > 0 {
        lemma_text_irreflexive(a.drop_first());
    }
}

proof fn lemma_text_total(a: Seq<char>, b: Seq<char>)
    ensures
        !(text_before(a, b) && text_before(b, a)),
        a != b ==> text_before(a, b) || text_before(b, a),
    decreases a.len(),
{
    if a.len() > 0 && b.len() > 0 {
        lemma_text_total(a.drop_first(), b.drop_first());
        if a != b && a[0] == b[0] {
            assert(a.drop_first() != b.drop_first()) by {
                if a.drop_first() == b.drop_first() {
                    assert(a =~= seq![a[0]] + a.drop_first());
                    assert(b =~= seq![b[0]] + b.drop_first());
                }
            }
        }
    } else if a.len() == 0 && b.len() == 0 {
        assert(a =~= b);
    }
}

proof fn lemma_text_trans(a: Seq<char>, b: Seq<char>, c: Seq<char>)
    requires
        text_before(a, b),
        text_before(b, c),
    ensures
        text_before(a, c),
    decreases a.len(),
{
    if a.len() > 0 && b.len() > 0 && c.len() > 0 && a[0] == b[0] && b[0] == c[0] {
        lemma_text_trans(a.drop_first(), b.drop_first(), c.drop_first());
    }
}

proof fn lemma_text_order(a: Seq<char>, b: Seq<char>, c: Seq<char>)
    ensures
        !(text_before(a, b) && text_before(b, a)),
        a != b ==> text_before(a, b) || text_before(b, a),
        text_before(a, b) && text_before(b, c) ==> text_before(a, c),
        !text_before(a, a),
{
    lemma_text_irreflexive(a);
    lemma_text_total(a, b);
    if text_before(a, b) && text_before(b, c) {
        lemma_text_trans(a, b, c);
    }
}

/// Where `a` stands against `b` in dictionary order: -1 before, 0 equal, 1 after.
fn compare_text(a: &String, b: &String) -> (r: i8)
    ensures
        -1 <= r <= 1,
        r == -1 <==> text_before(a@, b@),
        r == 0 <==> a@ == b@,
        r == 1 <==> text_before(b@, a@),
{
    let x = chars_of(a.as_str());
    let y = chars_of(b.as_str());
    let mut i: usize = 0;
    proof {
        assert(x@.skip(0) =~= x@);
        assert(y@.skip(0) =~= y@);
    }
    while i < x.len() && i < y.len() && x[i] == y[i]
        invariant
            i <= x@.len(),
            i <= y@.len(),
            x@ == a@,
            y@ == b@,
            x@.take(i as int) == y@.take(i as int),
            text_before(a@, b@) == text_before(x@.skip(i as int), y@.skip(i as int)),
            text_before(b@, a@) == text_before(y@.skip(i as int), x@.skip(i as int)),
        decreases x@.len() - i,
    {
        proof {
            assert(x@.skip(i as int).drop_first() =~= x@.skip(i + 1));
            assert(y@.skip(i as int).drop_first() =~= y@.skip(i + 1));
            assert(x@.take(i + 1) =~= x@.take(i as int).push(x@[i as int]));
            assert(y@.take(i + 1) =~= y@.take(i as int).push(y@[i as int]));
        }
        i = i + 1;
    }
    proof {
        lemma_text_order(a@, b@, b@);
        lemma_text_order(b@, a@, a@);
        if i < x@.len() && i < y@.len() {
            assert(x@[i as int] != y@[i as int]);
            assert(a@ != b@) by {
                if a@ == b@ {
                    assert(x@[i as int] == y@[i as int]);
                }
            }
        } else if i == x@.len() && i == y@.len() {
            assert(x@ =~= x@.take(i as int));
            assert(y@ =~= y@.take(i as int));
        } else if i == x@.len() {
            assert(a@ != b@);
        } else {
            assert(a@ != b@);
        }
    }
    if i < x.len() && i < y.len() {
        if x[i] < y[i] {
            -1
        } else {
            1
        }
    } else if i == x.len() && i == y.len() {
        0
    } else if i == x.len() {
        -1
    } else {
        1
    }
}

/// Where item `a` stands against item `b`: -1 before, 0 equal, 1 after.
fn compare_items(a: &Item, b: &Item) -> (r: i8)
    ensures
        -1 <= r <= 1,
        r == -1 <==> item_before(a@, b@),
        r == 0 <==> a@ == b@,
        r == 1 <==> item_before(b@, a@),
{
    proof {
        lemma_text_order(a@.1, b@.1, b@.1);
        lemma_text_order(b@.1, a@.1, a@.1);
    }
    match (a, b) {
        (Item::Generator(x), Item::Generator(y)) => compare_text(x, y),
        (Item::Chip(x), Item::Chip(y)) => compare_text(x, y),
        (Item::Generator(_), Item::Chip(_)) => -1,
        (Item::Chip(_), Item::Generator(_)) => 1,
    }
}

/// A floor of the facility: its items, kept in order without repeats.
#[derive(Debug, Default, PartialEq, Eq, Hash, Clone)]
pub struct Floor(pub Vec<Item>);

pub open spec fn items_of(v: Seq<Item>) -> Seq<ItemV> {
    v.map_values(|i: Item| i@)
}

/// The items are strictly in order, so none repeats.
pub open spec fn ordered(s: Seq<ItemV>) -> bool {
    forall|a: int, b: int| 0 <= a < b < s.len() ==> item_before(#[trigger] s[a], #[trigger] s[b])
}

/// Safe: no generator without its chip while some chip lacks its generator.
pub open spec fn safe_items(s: Set<ItemV>) -> bool {
    !((exists|v: ItemV| #[trigger] s.contains(v) && v.0 && !s.contains((false, v.1))) && (exists|v: ItemV|
        #[trigger] s.contains(v) && !v.0 && !s.contains((true, v.1))))
}

impl Floor {
    pub open spec fn wf(&self) -> bool {
        ordered(items_of(self.0@))
    }

    pub open spec fn items(&self) -> Seq<ItemV> {
        items_of(self.0@)
    }

    /// An empty floor.
    pub fn new() -> (r: Floor)
        ensures
            r.wf(),
            r.items() == Seq::<ItemV>::empty(),
    {
        let r = Floor(Vec::new());
        assert(r.items() =~= Seq::<ItemV>::empty());
        r
    }

    fn holds(&self, item: &Item) -> (r: bool)
        ensures
            r == self.items().contains(item@),
    {
        let mut k: usize = 0;
        while k < self.0.len()
            invariant
                k <= self.0@.len(),
                forall|q: int| 0 <= q < k ==> self.items()[q] != item@,
            decreases self.0@.len() - k,
        {
            if compare_items(&self.0[k], item) == 0 {
                assert(self.items()[k as int] == item@);
                return true;
            }
            k = k + 1;
        }
        false
    }

    /// Whether the floor is safe for its chips.
    pub fn safe(&self) -> (r: bool)
        ensures
            r == safe_items(self.items().to_set()),
    {
        let ghost s = self.items();
        let mut lone_gen = false;
        let mut lone_chip = false;
        let mut k: usize = 0;
        while k < self.0.len()
            invariant
                s == self.items(),
                k <= self.0@.len(),
                lone_gen == exists|q: int| 0 <= q < k && (#[trigger] s[q]).0 && !s.contains((false, s[q].1)),
                lone_chip == exists|q: int| 0 <= q < k && !(#[trigger] s[q]).0 && !s.contains((true, s[q].1)),
            decreases self.0@.len() - k,
        {
            let ghost before_gen = lone_gen;
            let ghost before_chip = lone_chip;
            match &self.0[k] {
                Item::Generator(e) => {
                    let partner = Item::Chip(e.clone());
                    if !self.holds(&partner) {
                        lone_gen = true;
                    }
                },
                Item::Chip(e) => {
                    let partner = Item::Generator(e.clone());
                    if !self.holds(&partner) {
                        lone_chip = true;
                    }
                },
            }
            proof {
                assert(s[k as int] == self.0@[k as int]@);
                if lone_gen && !before_gen {
                    assert(s[k as int].0 && !s.contains((false, s[k as int].1)));
                }
                if lone_chip && !before_chip {
                    assert(!s[k as int].0 && !s.contains((true, s[k as int].1)));
                }
            }
            k = k + 1;
        }
        proof {
            let t = s.to_set();
            if exists|v: ItemV| #[trigger] t.contains(v) && v.0 && !t.contains((false, v.1)) {
                let v = choose|v: ItemV| #[trigger] t.contains(v) && v.0 && !t.contains((false, v.1));
                let q = choose|q: int| 0 <= q < s.len() && s[q] == v;
                assert(s[q].0 && !s.contains((false, s[q].1)));
            }
            if exists|v: ItemV| #[trigger] t.contains(v) && !v.0 && !t.contains((true, v.1)) {
                let v = choose|v: ItemV| #[trigger] t.contains(v) && !v.0 && !t.contains((true, v.1));
                let q = choose|q: int| 0 <= q < s.len() && s[q] == v;
                assert(!s[q].0 && !s.contains((true, s[q].1)));
            }
            if lone_gen {
                let q = choose|q: int| 0 <= q < k && (#[trigger] s[q]).0 && !s.contains((false, s[q].1));
                assert(t.contains(s[q]));
            }
            if lone_chip {
                let q = choose|q: int| 0 <= q < k && !(#[trigger] s[q]).0 && !s.contains((true, s[q].1));
                assert(t.contains(s[q]));
            }
        }
        !(lone_gen && lone_chip)
    }

    /// Where `item` stands among the items: every item before `k` comes
    /// before it; the item at `k`, if any, is it (`found`) or comes after it.
    fn position(&self, item: &Item) -> (r: (usize, bool))
        ensures
            r.0 <= self.items().len(),
            forall|q: int| 0 <= q < r.0 ==> item_before(#[trigger] self.items()[q], item@),
            r.1 ==> r.0 < self.items().len() && self.items()[r.0 as int] == item@,
            !r.1 && r.0 < self.items().len() ==> item_before(item@, self.items()[r.0 as int]),
    {
        let mut k: usize = 0;
        while k < self.0.len()
            invariant
                k <= self.0@.len(),
                forall|q: int| 0 <= q < k ==> item_before(#[trigger] self.items()[q], item@),
            decreases self.0@.len() - k,
        {
            let c = compare_items(&self.0[k], item);
            proof {
                assert(self.items()[k as int] == self.0@[k as int]@);
            }
            if c == 0 {
                return (k, true);
            }
            if c == 1 {
                return (k, false);
            }
            proof {
                assert(c == -1);
                assert(item_before(self.items()[k as int], item@));
            }
            k = k + 1;
        }
        (k, false)
    }

    /// Puts `item` on the floor; nothing changes if it is there already.
    pub fn add(&mut self, item: Item)
        requires
            old(self).wf(),
        ensures
            final(self).wf(),
            final(self).items().to_set() == old(self).items().to_set().insert(item@),
    {
        let ghost s = self.items();
        let (k, found) = self.position(&item);
        if found {
            proof {
                assert(s.to_set().insert(item@) =~= s.to_set());
            }
            return;
        }
        self.0.insert(k, item);
        proof {
            let t = self.items();
            assert(t =~= s.insert(k as int, item@));
            assert forall|a: int, b: int| 0 <= a < b < t.len() implies item_before(#[trigger] t[a], #[trigger] t[b]) by {
                if b < k {
                } else if a < k && b == k {
                } else if a < k && b > k {
                    assert(item_before(s[a], s[b - 1]));
                } else if a == k {
                    if b - 1 > k {
                        assert(item_before(s[k as int], s[b - 1]));
                        lemma_item_trans(item@, s[k as int], s[b - 1]);
                    }
                } else {
                    assert(item_before(s[a - 1], s[b - 1]));
                }
            }
            assert forall|v: ItemV| #[trigger] t.contains(v) == (s.contains(v) || v == item@) by {
                if t.contains(v) {
                    let z = choose|z: int| 0 <= z < t.len() && t[z] == v;
                    if z < k {
                        assert(s[z] == v);
                    } else if z > k {
                        assert(s[z - 1] == v);
                    }
                }
                if s.contains(v) {
                    let z = choose|z: int| 0 <= z < s.len() && s[z] == v;
                    if z < k {
                        assert(t[z] == v);
                    } else {
                        assert(t[z + 1] == v);
                    }
                }
                if v == item@ {
                    assert(t[k as int] == v);
                }
            }
            assert(t.to_set() =~= s.to_set().insert(item@));
        }
    }

    /// Takes `item` off the floor, if it is there.
    pub fn remove(&mut self, item: &Item)
        requires
            old(self).wf(),
        ensures
            final(self).wf(),
            final(self).items().to_set() == old(self).items().to_set().remove(item@),
    {
        let ghost s = self.items();
        let (k, found) = self.position(item);
        if !found {
            proof {
                assert(!s.contains(item@)) by {
                    if s.contains(item@) {
                        let z = choose|z: int| 0 <= z < s.len() && s[z] == item@;
                        if z < k {
                            lemma_item_irreflexive(item@);
                        } else {
                            if z > k {
                                lemma_item_trans(item@, s[k as int], s[z]);
                            }
                            lemma_item_irreflexive(item@);
                        }
                    }
                }
                assert(s.to_set().remove(item@) =~= s.to_set());
            }
            return;
        }
        self.0.remove(k);
        proof {
            let t = self.items();
            assert(t =~= s.remove(k as int));
            assert forall|a: int, b: int| 0 <= a < b < t.len() implies item_before(#[trigger] t[a], #[trigger] t[b]) by {
                if a < k && b >= k {
                    assert(item_before(s[a], s[b + 1]));
                } else if a >= k {
                    assert(item_before(s[a + 1], s[b + 1]));
                }
            }
            assert forall|v: ItemV| #[trigger] t.contains(v) == (s.contains(v) && v != item@) by {
                if t.contains(v) {
                    let z = choose|z: int| 0 <= z < t.len() && t[z] == v;
                    if z < k {
                        assert(s[z] == v);
                        assert(item_before(s[z], s[k as int]));
                        if v == item@ {
                            lemma_item_irreflexive(v);
                        }
                    } else {
                        assert(s[z + 1] == v);
                        assert(item_before(s[k as int], s[z + 1]));
                        if v == item@ {
                            lemma_item_irreflexive(v);
                        }
                    }
                }
                if s.contains(v) && v != item@ {
                    let z = choose|z: int| 0 <= z < s.len() && s[z] == v;
                    if z < k {
                        assert(t[z] == v);
                    } else {
                        assert(z != k);
                        assert(t[z - 1] == v);
                    }
                }
            }
            assert(t.to_set() =~= s.to_set().remove(item@));
        }
    }
}

proof fn lemma_item_trans(a: ItemV, b: ItemV, c: ItemV)
    requires
        item_before(a, b),
        item_before(b, c),
    ensures
        item_before(a, c),
{
    lemma_text_order(a.1, b.1, c.1);
}

proof fn lemma_item_irreflexive(a: ItemV)
    ensures
        !item_before(a, a),
{
    lemma_text_order(a.1, a.1, a.1);
}

impl Item {
    /// A copy of this item.
    pub fn copy(&self) -> (r: Item)
        ensures
            r@ == self@,
    {
        match self {
            Item::Generator(e) => Item::Generator(e.clone()),
            Item::Chip(e) => Item::Chip(e.clone()),
        }
    }
}

impl Floor {
    /// A copy of this floor.
    pub fn copy(&self) -> (r: Floor)
        ensures
            r.items() == self.items(),
    {
        let mut v: Vec<Item> = Vec::new();
        let mut k: usize = 0;
        while k < self.0.len()
            invariant
                k <= self.0@.len(),
                items_of(v@) == self.items().take(k as int),
            decreases self.0@.len() - k,
        {
            let it = self.0[k].copy();
            let ghost before = v@;
            v.push(it);
            proof {
                assert(items_of(v@) =~= items_of(before).push(it@));
                assert(items_of(v@) =~= self.items().take(k + 1));
            }
            k = k + 1;
        }
        proof {
            assert(self.items().take(k as int) =~= self.items());
        }
        Floor(v)
    }

    /// Whether the floor holds nothing.
    pub fn is_empty(&self) -> (r: bool)
        ensures
            r == (self.items().len() == 0),
    {
        self.0.len() == 0
    }
}

/// The four floors and the floor the lift is on.
#[derive(Debug, Default, PartialEq, Eq, Clone, Hash)]
pub struct Factory {
    pub lift: usize,
    pub floors: [Floor; 4],
}

/// A factory as values: the lift's floor and the set of items on each floor.
pub type FactoryV = (usize, Seq<Set<ItemV>>);

pub open spec fn fview(f: Factory) -> FactoryV {
    (f.lift, Seq::new(4, |k: int| f.floors@[k].items().to_set()))
}

pub open spec fn factory_wf(f: Factory) -> bool {
    f.lift < 4 && forall|k: int| 0 <= k < 4 ==> (#[trigger] f.floors@[k]).wf()
}

/// Every floor is safe.
pub open spec fn legal_v(v: FactoryV) -> bool {
    forall|k: int| 0 <= k < 4 ==> safe_items(#[trigger] v.1[k])
}

/// The loads of one or two items, in order: each item alone, then each pair.
pub open spec fn candidates(s: Seq<ItemV>) -> Seq<Seq<ItemV>> {
    Seq::new(s.len(), |i: int| seq![s[i]]) + all_pairs(s, s.len())
}

/// The pairs `(s[i], s[j])`, `i < j`, with `i < n`, in order.
pub open spec fn all_pairs(s: Seq<ItemV>, n: nat) -> Seq<Seq<ItemV>>
    decreases n,
{
    if n == 0 {
        seq![]
    } else {
        let i = n - 1;
        all_pairs(s, (n - 1) as nat) + Seq::new((s.len() - i - 1) as nat, |j: int| seq![s[i], s[i + 1 + j]])
    }
}

/// The factory after the lift takes the load `c` from its floor to `dest`.
pub open spec fn carried(v: FactoryV, dest: int, c: Seq<ItemV>) -> FactoryV {
    (
        dest as usize,
        Seq::new(
            4,
            |k: int|
                if k == v.0 {
                    v.1[k].difference(c.to_set())
                } else if k == dest {
                    v.1[k].union(c.to_set())
                } else {
                    v.1[k]
                },
        ),
    )
}

/// The load is safe in the lift and leaves every floor safe.
pub open spec fn good_load(v: FactoryV, dest: int, c: Seq<ItemV>) -> bool {
    safe_items(c.to_set()) && legal_v(carried(v, dest, c))
}

impl Factory {
    /// Every floor is safe.
    pub fn legal(&self) -> (r: bool)
        ensures
            r == legal_v(fview(*self)),
    {
        let mut k: usize = 0;
        while k < 4
            invariant
                k <= 4,
                forall|q: int| 0 <= q < k ==> safe_items(#[trigger] fview(*self).1[q]),
            decreases 4 - k,
        {
            let ok = self.floors[k].safe();
            proof {
                assert(fview(*self).1[k as int] == self.floors@[k as int].items().to_set());
            }
            if !ok {
                return false;
            }
            k = k + 1;
        }
        true
    }

    /// Everything is on the top floor.
    pub fn solved(&self) -> (r: bool)
        ensures
            r == forall|k: int| 0 <= k < 3 ==> (#[trigger] self.floors@[k]).items().len() == 0,
    {
        self.floors[0].is_empty() && self.floors[1].is_empty() && self.floors[2].is_empty()
    }
}

proof fn lemma_push_set(s: Seq<ItemV>, x: ItemV)
    ensures
        s.push(x).to_set() == s.to_set().insert(x),
{
    let t = s.push(x);
    assert forall|v: ItemV| #[trigger] t.contains(v) == (s.contains(v) || v == x) by {
        if t.contains(v) {
            let z = choose|z: int| 0 <= z < t.len() && t[z] == v;
            if z < s.len() {
                assert(s[z] == v);
            }
        }
        if s.contains(v) {
            let z = choose|z: int| 0 <= z < s.len() && s[z] == v;
            assert(t[z] == v);
        }
        if v == x {
            assert(t[s.len() as int] == x);
        }
    }
    assert(t.to_set() =~= s.to_set().insert(x));
}

pub open spec fn load_views(v: Seq<Vec<Item>>) -> Seq<Seq<ItemV>> {
    v.map_values(|c: Vec<Item>| items_of(c@))
}

/// Every load of one or two items from `floor`, in order.
fn load_list(floor: &Floor) -> (r: Vec<Vec<Item>>)
    ensures
        load_views(r@) == candidates(floor.items()),
{
    let n = floor.0.len();
    let ghost s = floor.items();
    let mut r: Vec<Vec<Item>> = Vec::new();
    let mut i: usize = 0;
    while i < n
        invariant
            n == floor.0@.len() == s.len(),
            s == floor.items(),
            i <= n,
            load_views(r@) == Seq::new(i as nat, |q: int| seq![s[q]]),
        decreases n - i,
    {
        let mut one: Vec<Item> = Vec::new();
        one.push(floor.0[i].copy());
        let ghost before = r@;
        r.push(one);
        proof {
            assert(items_of(one@) =~= seq![s[i as int]]);
            assert(load_views(r@) =~= load_views(before).push(items_of(one@)));
            assert(load_views(r@) =~= Seq::new((i + 1) as nat, |q: int| seq![s[q]]));
        }
        i = i + 1;
    }
    let ghost singles = load_views(r@);
    let mut a: usize = 0;
    proof {
        assert(singles + all_pairs(s, 0) =~= singles);
    }
    while a < n
        invariant
            n == floor.0@.len() == s.len(),
            s == floor.items(),
            a <= n,
            singles == Seq::new(n as nat, |q: int| seq![s[q]]),
            load_views(r@) == singles + all_pairs(s, a as nat),
        decreases n - a,
    {
        let ghost base = load_views(r@);
        let mut b: usize = a + 1;
        while b < n
            invariant
                n == floor.0@.len() == s.len(),
                s == floor.items(),
                a < n,
                a + 1 <= b <= n,
                load_views(r@) == base + Seq::new((b - a - 1) as nat, |j: int| seq![s[a as int], s[a + 1 + j]]),
            decreases n - b,
        {
            let mut two: Vec<Item> = Vec::new();
            two.push(floor.0[a].copy());
            two.push(floor.0[b].copy());
            let ghost before = r@;
            r.push(two);
            proof {
                assert(items_of(two@) =~= seq![s[a as int], s[b as int]]);
                assert(load_views(r@) =~= load_views(before).push(items_of(two@)));
                assert(load_views(r@) =~= base + Seq::new((b + 1 - a - 1) as nat, |j: int| seq![s[a as int], s[a + 1 + j]]));
            }
            b = b + 1;
        }
        proof {
            assert(all_pairs(s, (a + 1) as nat) == all_pairs(s, a as nat) + Seq::new((s.len() - a - 1) as nat, |j: int| seq![s[a as int], s[a + 1 + j]]));
            assert(load_views(r@) =~= singles + all_pairs(s, (a + 1) as nat));
        }
        a = a + 1;
    }
    r
}

impl Factory {
    /// Floor `k` after the load `load` leaves the lift's floor for `dest`.
    fn floor_after(&self, k: usize, dest: usize, load: &Vec<Item>) -> (r: Floor)
        requires
            factory_wf(*self),
            k < 4,
            dest < 4,
            dest != self.lift,
        ensures
            r.wf(),
            r.items().to_set() == carried(fview(*self), dest as int, items_of(load@)).1[k as int],
    {
        let mut f = self.floors[k].copy();
        let ghost orig = self.floors@[k as int].items().to_set();
        let ghost c = items_of(load@);
        proof {
            assert(self.floors@[k as int].wf());
            assert(fview(*self).1[k as int] == orig);
        }
        if k == self.lift {
            let mut q: usize = 0;
            while q < load.len()
                invariant
                    q <= load@.len(),
                    c == items_of(load@),
                    f.wf(),
                    f.items().to_set() == orig.difference(c.take(q as int).to_set()),
                decreases load@.len() - q,
            {
                f.remove(&load[q]);
                proof {
                    assert(c.take(q + 1) =~= c.take(q as int).push(c[q as int]));
                    lemma_push_set(c.take(q as int), c[q as int]);
                    assert(f.items().to_set() =~= orig.difference(c.take(q + 1).to_set()));
                }
                q = q + 1;
            }
            proof {
                assert(c.take(q as int) =~= c);
            }
        } else if k == dest {
            let mut q: usize = 0;
            while q < load.len()
                invariant
                    q <= load@.len(),
                    c == items_of(load@),
                    f.wf(),
                    f.items().to_set() == orig.union(c.take(q as int).to_set()),
                decreases load@.len() - q,
            {
                f.add(load[q].copy());
                proof {
                    assert(c.take(q + 1) =~= c.take(q as int).push(c[q as int]));
                    lemma_push_set(c.take(q as int), c[q as int]);
                    assert(f.items().to_set() =~= orig.union(c.take(q + 1).to_set()));
                }
                q = q + 1;
            }
            proof {
                assert(c.take(q as int) =~= c);
            }
        }
        f
    }

    /// This factory after the lift carries `load` to `dest`.
    fn carry(&self, dest: usize, load: &Vec<Item>) -> (r: Factory)
        requires
            factory_wf(*self),
            dest < 4,
            dest != self.lift,
        ensures
            factory_wf(r),
            fview(r) == carried(fview(*self), dest as int, items_of(load@)),
    {
        let f0 = self.floor_after(0, dest, load);
        let f1 = self.floor_after(1, dest, load);
        let f2 = self.floor_after(2, dest, load);
        let f3 = self.floor_after(3, dest, load);
        let r = Factory { lift: dest, floors: [f0, f1, f2, f3] };
        proof {
            assert(r.floors@[0] == f0 && r.floors@[1] == f1 && r.floors@[2] == f2 && r.floors@[3] == f3);
            assert(fview(r).1 =~= carried(fview(*self), dest as int, items_of(load@)).1);
        }
        r
    }
}

/// The factories one lift trip from `v` to `dest`: for each load in order
/// that is safe in the lift and leaves every floor safe.
pub open spec fn trips(v: FactoryV, lift_items: Seq<ItemV>, dest: int) -> Seq<FactoryV> {
    if v.0 == dest || v.0 - dest > 1 || dest - v.0 > 1 {
        seq![]
    } else {
        candidates(lift_items).filter(|c: Seq<ItemV>| good_load(v, dest, c)).map_values(
            |c: Seq<ItemV>| carried(v, dest, c),
        )
    }
}

impl Factory {
    /// The factories one legal lift trip from this one to `floor`.
    pub fn moves_to(&self, floor: usize) -> (r: Vec<Factory>)
        requires
            factory_wf(*self),
            floor < 4,
        ensures
            r@.map_values(|f: Factory| fview(f)) == trips(fview(*self), self.floors@[self.lift as int].items(), floor as int),
            forall|k: int| 0 <= k < r@.len() ==> factory_wf(#[trigger] r@[k]),
    {
        let ghost v = fview(*self);
        let ghost good = |c: Seq<ItemV>| good_load(v, floor as int, c);
        let ghost after = |c: Seq<ItemV>| carried(v, floor as int, c);
        let mut r: Vec<Factory> = Vec::new();
        if self.lift == floor || (self.lift > floor && self.lift - floor > 1) || (floor > self.lift && floor - self.lift > 1) {
            proof {
                assert(r@.map_values(|f: Factory| fview(f)) =~= Seq::<FactoryV>::empty());
            }
            return r;
        }
        let loads = load_list(&self.floors[self.lift]);
        let ghost cands = candidates(self.floors@[self.lift as int].items());
        let mut i: usize = 0;
        while i < loads.len()
            invariant
                factory_wf(*self),
                floor < 4,
                floor != self.lift,
                v == fview(*self),
                good == (|c: Seq<ItemV>| good_load(v, floor as int, c)),
                after == (|c: Seq<ItemV>| carried(v, floor as int, c)),
                load_views(loads@) == cands,
                i <= loads@.len(),
                r@.map_values(|f: Factory| fview(f)) == cands.take(i as int).filter(good).map_values(after),
                forall|k: int| 0 <= k < r@.len() ==> factory_wf(#[trigger] r@[k]),
            decreases loads@.len() - i,
        {
            let load = &loads[i];
            let ghost c = items_of(load@);
            proof {
                assert(cands[i as int] == c);
                assert(cands.take(i + 1).drop_last() =~= cands.take(i as int));
                reveal(Seq::filter);
            }
            let mut in_lift = Floor::new();
            let mut q: usize = 0;
            while q < load.len()
                invariant
                    q <= load@.len(),
                    c == items_of(load@),
                    in_lift.wf(),
                    in_lift.items().to_set() == c.take(q as int).to_set(),
                decreases load@.len() - q,
            {
                in_lift.add(load[q].copy());
                proof {
                    assert(c.take(q + 1) =~= c.take(q as int).push(c[q as int]));
                    lemma_push_set(c.take(q as int), c[q as int]);
                }
                q = q + 1;
            }
            proof {
                assert(c.take(q as int) =~= c);
            }
            let ghost prev = r@;
            if in_lift.safe() {
                let next = self.carry(floor, load);
                if next.legal() {
                    r.push(next);
                    proof {
                        assert(r@.map_values(|f: Factory| fview(f)) =~= prev.map_values(|f: Factory| fview(f)).push(fview(next)));
                    }
                }
            }
            proof {
                assert(r@.map_values(|f: Factory| fview(f)) =~= cands.take(i + 1).filter(good).map_values(after));
            }
            i = i + 1;
        }
        proof {
            assert(cands.take(i as int) =~= cands);
        }
        r
    }

    /// The factories one legal lift trip from this one, to each floor in turn.
    pub fn moves(&self) -> (r: Vec<Factory>)
        requires
            factory_wf(*self),
        ensures
            r@.map_values(|f: Factory| fview(f)) == trips(fview(*self), self.floors@[self.lift as int].items(), 0)
                + trips(fview(*self), self.floors@[self.lift as int].items(), 1) + trips(
                fview(*self),
                self.floors@[self.lift as int].items(),
                2,
            ) + trips(fview(*self), self.floors@[self.lift as int].items(), 3),
    {
        let ghost v = fview(*self);
        let ghost li = self.floors@[self.lift as int].items();
        let mut r: Vec<Factory> = Vec::new();
        let mut floor: usize = 0;
        while floor < 4
            invariant
                factory_wf(*self),
                v == fview(*self),
                li == self.floors@[self.lift as int].items(),
                floor <= 4,
                r@.map_values(|f: Factory| fview(f)) == (if floor == 0 {
                    seq![]
                } else if floor == 1 {
                    trips(v, li, 0)
                } else if floor == 2 {
                    trips(v, li, 0) + trips(v, li, 1)
                } else if floor == 3 {
                    trips(v, li, 0) + trips(v, li, 1) + trips(v, li, 2)
                } else {
                    trips(v, li, 0) + trips(v, li, 1) + trips(v, li, 2) + trips(v, li, 3)
                }),
            decreases 4 - floor,
        {
            let mut more = self.moves_to(floor);
            let ghost prev = r@;
            let ghost added = more@;
            r.append(&mut more);
            proof {
                assert(r@.map_values(|f: Factory| fview(f)) =~= prev.map_values(|f: Factory| fview(f)) + added.map_values(|f: Factory| fview(f)));
            }
            floor = floor + 1;
        }
        r
    }
}

/// `w` starts with `p`.
pub open spec fn starts_with(w: Seq<char>, p: Seq<char>) -> bool {
    w.len() >= p.len() && w.take(p.len() as int) == p
}

/// The item named by the words at `k`: `a X-compatible microchip...` or
/// `a X generator...`.
pub open spec fn found_at(w: Seq<Seq<char>>, k: int) -> Set<ItemV> {
    if 0 <= k && k + 2 < w.len() && w[k] == "a"@ {
        let x = w[k + 1];
        if starts_with(w[k + 2], "microchip"@) && x.len() > 11 && x.skip(x.len() - 11) == "-compatible"@ {
            set![(false, x.take(x.len() - 11))]
        } else if starts_with(w[k + 2], "generator"@) {
            set![(true, x)]
        } else {
            Set::empty()
        }
    } else {
        Set::empty()
    }
}

/// The items named by the words before `n`.
pub open spec fn items_upto(w: Seq<Seq<char>>, n: nat) -> Set<ItemV>
    decreases n,
{
    if n == 0 {
        Set::empty()
    } else {
        items_upto(w, (n - 1) as nat).union(found_at(w, n - 1))
    }
}

/// The items a line of the description puts on its floor.
pub open spec fn line_items(l: Seq<char>) -> Set<ItemV> {
    items_upto(words(l), words(l).len())
}

/// A description with more than four floors.
#[derive(Debug, Clone, Copy, PartialEq, Eq, Structural)]
pub struct FactoryParseError {}

fn ends_with_at(cs: &Vec<char>, st: usize, en: usize, lit: &str) -> (r: bool)
    requires
        st <= en <= cs@.len(),
    ensures
        r == (cs@.subrange(st as int, en as int).len() >= lit@.len() && cs@.subrange(st as int, en as int).skip(
            (en - st) - lit@.len(),
        ) == lit@),
{
    let n = lit.unicode_len();
    if en - st < n {
        return false;
    }
    let r = span_eq(cs, en - n, en, lit);
    proof {
        assert(cs@.subrange(st as int, en as int).skip((en - st) - n) =~= cs@.subrange(en - n, en as int));
    }
    r
}

fn starts_with_at(cs: &Vec<char>, st: usize, en: usize, lit: &str) -> (r: bool)
    requires
        st <= en <= cs@.len(),
    ensures
        r == starts_with(cs@.subrange(st as int, en as int), lit@),
{
    let n = lit.unicode_len();
    if en - st < n {
        return false;
    }
    let r = span_eq(cs, st, st + n, lit);
    proof {
        assert(cs@.subrange(st as int, en as int).take(n as int) =~= cs@.subrange(st as int, st + n));
    }
    r
}

fn copy_text(cs: &Vec<char>, st: usize, en: usize) -> (r: String)
    requires
        st <= en <= cs@.len(),
    ensures
        r@ == cs@.subrange(st as int, en as int),
{
    crate::text::string_from_chars(&crate::text::sub_chars(cs, st, en))
}

/// The floor described by one line.
fn read_floor(line: &str) -> (r: Floor)
    ensures
        r.wf(),
        r.items().to_set() == line_items(line@),
{
    let cs = chars_of(line);
    let w = word_spans(&cs);
    let ghost ws = words(line@);
    let mut f = Floor::new();
    let mut k: usize = 0;
    proof {
        assert(f.items().to_set() =~= Set::<ItemV>::empty());
    }
    while k < w.len()
        invariant
            cs@ == line@,
            ws == words(line@),
            w@.len() == ws.len(),
            forall|q: int| #![trigger w@[q]] 0 <= q < w@.len() ==> w@[q].0 < w@[q].1 <= cs@.len(),
            forall|q: int| 0 <= q < w@.len() ==> #[trigger] ws[q] == cs@.subrange(w@[q].0 as int, w@[q].1 as int),
            k <= w@.len(),
            f.wf(),
            f.items().to_set() == items_upto(ws, k as nat),
        decreases w@.len() - k,
    {
        let ghost before = f.items().to_set();
        proof {
            reveal_strlit("-compatible");
        }
        if w.len() - k > 2 {
            let (a0, b0) = w[k];
            let (a1, b1) = w[k + 1];
            let (a2, b2) = w[k + 2];
            proof {
                assert(ws[k as int] == cs@.subrange(a0 as int, b0 as int));
                assert(ws[k + 1] == cs@.subrange(a1 as int, b1 as int));
                assert(ws[k + 2] == cs@.subrange(a2 as int, b2 as int));
                assert(w@[k as int].0 < w@[k as int].1 <= cs@.len());
                assert(w@[k + 1].0 < w@[k + 1].1 <= cs@.len());
                assert(w@[k + 2].0 < w@[k + 2].1 <= cs@.len());
            }
            if span_eq(&cs, a0, b0, "a") {
                if starts_with_at(&cs, a2, b2, "microchip") && b1 - a1 > 11 && ends_with_at(&cs, a1, b1, "-compatible") {
                    let name = copy_text(&cs, a1, b1 - 11);
                    proof {
                        let x = ws[k + 1];
                        assert(x.take(x.len() - 11) =~= cs@.subrange(a1 as int, b1 - 11));
                    }
                    f.add(Item::Chip(name));
                } else if starts_with_at(&cs, a2, b2, "generator") {
                    let name = copy_text(&cs, a1, b1);
                    f.add(Item::Generator(name));
                }
            }
        }
        proof {
            assert(items_upto(ws, (k + 1) as nat) == before.union(found_at(ws, k as int)));
            assert(f.items().to_set() =~= items_upto(ws, (k + 1) as nat));
        }
        k = k + 1;
    }
    f
}

impl Factory {
    /// Reads the description, one line per floor from the first; the lift
    /// starts on the first floor.
    pub fn parse(s: &str) -> (r: Result<Factory, FactoryParseError>)
        ensures
            r is Ok <==> lines(s@).len() <= 4,
            r matches Ok(f) ==> factory_wf(f) && f.lift == 0 && forall|k: int|
                0 <= k < 4 ==> (#[trigger] fview(f).1[k]) == if k < lines(s@).len() {
                    line_items(lines(s@)[k])
                } else {
                    Set::<ItemV>::empty()
                },
    {
        let cs = chars_of(s);
        let spans = line_spans(&cs);
        if spans.len() > 4 {
            return Err(FactoryParseError {});
        }
        let ghost ls = lines(s@);
        let f0 = floor_of_line(s, &cs, &spans, 0);
        let f1 = floor_of_line(s, &cs, &spans, 1);
        let f2 = floor_of_line(s, &cs, &spans, 2);
        let f3 = floor_of_line(s, &cs, &spans, 3);
        let r = Factory { lift: 0, floors: [f0, f1, f2, f3] };
        proof {
            assert(r.floors@[0] == f0 && r.floors@[1] == f1 && r.floors@[2] == f2 && r.floors@[3] == f3);
        }
        Ok(r)
    }
}

fn floor_of_line(s: &str, cs: &Vec<char>, spans: &Vec<(usize, usize)>, k: usize) -> (r: Floor)
    requires
        cs@ == s@,
        spans@.len() == lines(s@).len(),
        forall|q: int| #![trigger spans@[q]] 0 <= q < spans@.len() ==> spans@[q].0 <= spans@[q].1 <= cs@.len(),
        forall|q: int|
            0 <= q < spans@.len() ==> #[trigger] lines(s@)[q] == cs@.subrange(spans@[q].0 as int, spans@[q].1 as int),
    ensures
        r.wf(),
        r.items().to_set() == if k < lines(s@).len() {
            line_items(lines(s@)[k as int])
        } else {
            Set::<ItemV>::empty()
        },
{
    if k < spans.len() {
        let (st, en) = spans[k];
        proof {
            assert(lines(s@)[k as int] == cs@.subrange(st as int, en as int));
        }
        read_floor(s.substring_char(st, en))
    } else {
        let f = Floor::new();
        proof {
            assert(f.items().to_set() =~= Set::<ItemV>::empty());
        }
        f
    }
}

impl std::str::FromStr for Factory {
    type Err = FactoryParseError;

    fn from_str(s: &str) -> Result<Factory, FactoryParseError> {
        Factory::parse(s)
    }
}

/// The factories one lift trip from `f`, as `moves` lists them.
pub open spec fn next_factories(f: Factory) -> Seq<FactoryV> {
    let li = f.floors@[f.lift as int].items();
    trips(fview(f), li, 0) + trips(fview(f), li, 1) + trips(fview(f), li, 2) + trips(fview(f), li, 3)
}

/// Everything is on the top floor.
pub open spec fn all_up(f: Factory) -> bool {
    forall|k: int| 0 <= k < 3 ==> (#[trigger] f.floors@[k]).items().len() == 0
}

/// `p` is a run of lift trips, each factory one trip on from the one before.
pub open spec fn trip_path(p: Seq<Factory>) -> bool {
    p.len() >= 1 && forall|i: int| 0 <= i < p.len() - 1 ==> next_factories(#[trigger] p[i]).contains(fview(p[i + 1]))
}

/// Relies on `pathfinding::directed::bfs::bfs`: a shortest path, start and
/// end included, from `start` to a node for which `all_up` holds, following
/// `Factory::moves`; `None` when there is none.
#[verifier::external_body]
fn bfs_trips(start: &Factory) -> (r: Option<Vec<Factory>>)
    requires
        factory_wf(*start),
    ensures
        r matches Some(p) ==> trip_path(p@) && fview(p@[0]) == fview(*start) && all_up(p@.last()) && forall|q: Seq<Factory>|
            trip_path(q) && fview(q[0]) == fview(*start) && all_up(q.last()) ==> q.len() >= p@.len(),
        r is None ==> forall|q: Seq<Factory>| trip_path(q) && fview(q[0]) == fview(*start) ==> !all_up(q.last()),
{
    pathfinding::prelude::bfs(start, |f: &Factory| f.moves(), |f: &Factory| f.solved())
}

/// A run of trips from `start` that brings everything up.
pub open spec fn solving_run(q: Seq<Factory>, start: FactoryV) -> bool {
    trip_path(q) && fview(q[0]) == start && all_up(q.last())
}

/// The value reported for the description `input`: one more than the number
/// of factories on a shortest run of trips that brings everything up
/// (start and end included), or zero if no run does.
#[verifier::rlimit(40)]
pub fn solve(input: &str) -> (r: usize)
    requires
        lines(input@).len() <= 4,
    ensures
        r > 0 ==> exists|p: Seq<Factory>|
            #[trigger] solving_run(p, Factory::parse_spec(input@)) && (p.len() + 1 == r || p.len() == usize::MAX),
        r > 0 ==> forall|q: Seq<Factory>| #[trigger] solving_run(q, Factory::parse_spec(input@)) ==> q.len() + 1 >= r,
        r == 0 ==> forall|q: Seq<Factory>| #[trigger] solving_run(q, Factory::parse_spec(input@)) ==> false,
{
    let ghost start = Factory::parse_spec(input@);
    match Factory::parse(input) {
        Ok(factory) => {
            proof {
                assert(fview(factory).1 =~= start.1);
                assert(fview(factory) == start);
            }
            match bfs_trips(&factory) {
                Some(path) => {
                    let ghost p = path@;
                    let r = if path.len() < usize::MAX {
                        path.len() + 1
                    } else {
                        usize::MAX
                    };
                    proof {
                        assert(solving_run(p, start));
                        assert forall|q: Seq<Factory>| #[trigger] solving_run(q, start) implies q.len() + 1 >= r by {
                            assert(q.len() >= p.len());
                        }
                    }
                    r
                },
                None => {
                    proof {
                        assert forall|q: Seq<Factory>| #[trigger] solving_run(q, start) implies false by {
                            assert(trip_path(q) && fview(q[0]) == fview(factory));
                        }
                    }
                    0
                },
            }
        },
        Err(_) => 0,
    }
}

impl Factory {
    /// The factory a description reads as, as values.
    pub open spec fn parse_spec(s: Seq<char>) -> FactoryV {
        (0, Seq::new(4, |k: int| if k < lines(s).len() { line_items(lines(s)[k]) } else { Set::<ItemV>::empty() }))
    }
}

} // verus!
