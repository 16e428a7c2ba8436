use vstd::prelude::*;
use crate::text::{chars_of, digits_of, line_spans, lines, read_digits, span_eq, word_spans, words};

verus! {

/// Where a bot sends a chip.
#[derive(Debug, Default, Clone, Copy, PartialEq, Eq, Structural)]
pub enum Destination {
    #[default]
    Nowhere,
    Bot(usize),
    Output(usize),
}

/// A bot: the chips it holds now (in increasing order), every chip it has
/// ever held, and where its low and high chips go.
#[derive(Debug, Default, Clone)]
pub struct Bot {
    pub holds: Vec<usize>,
    pub held: Vec<usize>,
    pub low: Destination,
    pub high: Destination,
}

pub open spec fn increasing(s: Seq<usize>) -> bool {
    forall|a: int, b: int| 0 <= a < b < s.len() ==> s[a] <= s[b]
}

pub open spec fn no_repeats(s: Seq<usize>) -> bool {
    forall|a: int, b: int| 0 <= a < b < s.len() ==> s[a] != s[b]
}

impl Bot {
    pub open spec fn wf(&self) -> bool {
        increasing(self.holds@) && no_repeats(self.held@)
    }

    /// A bot holding nothing, with nowhere to send chips.
    pub fn new() -> (r: Bot)
        ensures
            r.wf(),
            r.holds@ == Seq::<usize>::empty(),
            r.held@ == Seq::<usize>::empty(),
            r.low == Destination::Nowhere,
            r.high == Destination::Nowhere,
    {
        Bot { holds: Vec::new(), held: Vec::new(), low: Destination::Nowhere, high: Destination::Nowhere }
    }

    /// Takes the chip `value`.
    pub fn take(&mut self, value: usize)
        requires
            old(self).wf(),
        ensures
            final(self).wf(),
            final(self)@ == took(old(self)@, value),
    {
        let mut p: usize = 0;
        proof {
            assert(self.holds@.skip(0) =~= self.holds@);
        }
        while p < self.holds.len() && self.holds[p] <= value
            invariant
                p <= self.holds@.len(),
                forall|q: int| 0 <= q < p ==> self.holds@[q] <= value,
                slot(self.holds@, value) == p + slot(self.holds@.skip(p as int), value),
            decreases self.holds@.len() - p,
        {
            proof {
                assert(self.holds@.skip(p as int).drop_first() =~= self.holds@.skip(p + 1));
            }
            p = p + 1;
        }
        proof {
            if p < self.holds@.len() {
                assert(self.holds@.skip(p as int)[0] == self.holds@[p as int]);
            }
        }
        let ghost before = self.holds@;
        self.holds.insert(p, value);
        proof {
            assert forall|a: int, b: int| 0 <= a < b < self.holds@.len() implies self.holds@[a] <= self.holds@[b] by {
                if b < p {
                } else if a < p && b == p {
                } else if a < p && b > p {
                    assert(before[a] <= before[b - 1]);
                } else if a == p {
                    assert(before[p as int] > value);
                    assert(before[p as int] <= before[b - 1]);
                } else {
                    assert(before[a - 1] <= before[b - 1]);
                }
            }
        }
        let mut k: usize = 0;
        while k < self.held.len() && self.held[k] != value
            invariant
                k <= self.held@.len(),
                forall|q: int| 0 <= q < k ==> self.held@[q] != value,
            decreases self.held@.len() - k,
        {
            k = k + 1;
        }
        if k == self.held.len() {
            proof {
                assert(!self.held@.contains(value));
            }
            self.held.push(value);
        } else {
            proof {
                assert(self.held@[k as int] == value);
                assert(self.held@.contains(value));
            }
        }
    }

    /// Sets where the low and the high chip go.
    pub fn gives(&mut self, low: Destination, high: Destination)
        ensures
            final(self).low == low,
            final(self).high == high,
            final(self).holds@ == old(self).holds@,
            final(self).held@ == old(self).held@,
    {
        self.low = low;
        self.high = high;
    }

    /// Whether the bot has ever held both `x` and `y`.
    pub fn contains(&self, x: usize, y: usize) -> (r: bool)
        ensures
            r == (self.held@.contains(x) && self.held@.contains(y)),
    {
        let mut hx = false;
        let mut hy = false;
        let mut k: usize = 0;
        while k < self.held.len()
            invariant
                k <= self.held@.len(),
                hx == exists|q: int| 0 <= q < k && self.held@[q] == x,
                hy == exists|q: int| 0 <= q < k && self.held@[q] == y,
            decreases self.held@.len() - k,
        {
            if self.held[k] == x {
                hx = true;
            }
            if self.held[k] == y {
                hy = true;
            }
            k = k + 1;
        }
        hx && hy
    }
}

/// A bot as values.
pub type BotV = (Seq<usize>, Seq<usize>, Destination, Destination);

impl View for Bot {
    type V = BotV;

    open spec fn view(&self) -> BotV {
        (self.holds@, self.held@, self.low, self.high)
    }
}

/// The index at which `v` goes into the increasing `s`: after every element
/// not above it.
pub open spec fn slot(s: Seq<usize>, v: usize) -> nat
    decreases s.len(),
{
    if s.len() == 0 || s[0] > v {
        0
    } else {
        1 + slot(s.drop_first(), v)
    }
}

/// A bot after taking the chip `v`.
pub open spec fn took(b: BotV, v: usize) -> BotV {
    (b.0.insert(slot(b.0, v) as int, v), if b.1.contains(v) { b.1 } else { b.1.push(v) }, b.2, b.3)
}

/// The factory floor: outputs and bots, each listed once by number, in the
/// order they first appeared.
pub struct Machine {
    pub outputs: Vec<(usize, usize)>,
    pub bots: Vec<(usize, Bot)>,
}

pub type MachineV = (Seq<(usize, usize)>, Seq<(usize, BotV)>);

impl View for Machine {
    type V = MachineV;

    open spec fn view(&self) -> MachineV {
        (self.outputs@, self.bots@.map_values(|e: (usize, Bot)| (e.0, e.1@)))
    }
}

/// The index of the entry numbered `id`, or the length.
pub open spec fn index_of<T>(s: Seq<(usize, T)>, id: usize) -> nat
    decreases s.len(),
{
    if s.len() == 0 || s[0].0 == id {
        0
    } else {
        1 + index_of(s.drop_first(), id)
    }
}

/// The chips handed on in a tick: each bot holding two or more, in order,
/// gives its lowest to its low target and its next to its high target.
pub open spec fn handed(bots: Seq<(usize, BotV)>) -> Seq<(Destination, usize)>
    decreases bots.len(),
{
    if bots.len() == 0 {
        seq![]
    } else {
        let b = bots.last().1;
        handed(bots.drop_last()) + if b.0.len() >= 2 {
            seq![(b.2, b.0[0]), (b.3, b.0[1])]
        } else {
            seq![]
        }
    }
}

/// The bots once every bot holding two or more has emptied its hands.
pub open spec fn emptied(bots: Seq<(usize, BotV)>) -> Seq<(usize, BotV)> {
    bots.map_values(|e: (usize, BotV)| if e.1.0.len() >= 2 { (e.0, (seq![], e.1.1, e.1.2, e.1.3)) } else { e })
}

/// The machine after one chip `v` reaches `d`: a bot takes it (a new bot
/// is listed if needed), an output holds it in place of what it had.
pub open spec fn deliver(m: MachineV, d: Destination, v: usize) -> MachineV {
    match d {
        Destination::Bot(id) => {
            let i = index_of(m.1, id);
            if i < m.1.len() {
                (m.0, m.1.update(i as int, (id, took(m.1[i as int].1, v))))
            } else {
                (m.0, m.1.push((id, took((seq![], seq![], Destination::Nowhere, Destination::Nowhere), v))))
            }
        },
        Destination::Output(id) => {
            let i = index_of(m.0, id);
            if i < m.0.len() {
                (m.0.update(i as int, (id, v)), m.1)
            } else {
                (m.0.push((id, v)), m.1)
            }
        },
        Destination::Nowhere => m,
    }
}

/// The chips of `hs` delivered in order.
pub open spec fn deliver_all(m: MachineV, hs: Seq<(Destination, usize)>) -> MachineV
    decreases hs.len(),
{
    if hs.len() == 0 {
        m
    } else {
        let p = deliver_all(m, hs.drop_last());
        deliver(p, hs.last().0, hs.last().1)
    }
}

/// One tick: every bot holding two or more chips hands them on at once.
pub open spec fn tick_spec(m: MachineV) -> MachineV {
    deliver_all((m.0, emptied(m.1)), handed(m.1))
}

pub open spec fn machine_wf(m: MachineV) -> bool {
    forall|k: int| 0 <= k < m.1.len() ==> increasing(#[trigger] m.1[k].1.0) && no_repeats(m.1[k].1.1)
}

fn index_in_outputs(s: &Vec<(usize, usize)>, id: usize) -> (r: usize)
    ensures
        r == index_of(s@, id),
{
    let mut i: usize = 0;
    proof {
        assert(s@.skip(0) =~= s@);
    }
    while i < s.len() && s[i].0 != id
        invariant
            i <= s@.len(),
            index_of(s@, id) == i + index_of(s@.skip(i as int), id),
        decreases s@.len() - i,
    {
        proof {
            assert(s@.skip(i as int).drop_first() =~= s@.skip(i + 1));
        }
        i = i + 1;
    }
    i
}

fn index_in_bots(s: &Vec<(usize, Bot)>, id: usize) -> (r: usize)
    ensures
        r == index_of(s@.map_values(|e: (usize, Bot)| (e.0, e.1@)), id),
{
    let ghost v = s@.map_values(|e: (usize, Bot)| (e.0, e.1@));
    let mut i: usize = 0;
    proof {
        assert(v.skip(0) =~= v);
    }
    while i < s.len() && s[i].0 != id
        invariant
            i <= s@.len(),
            v == s@.map_values(|e: (usize, Bot)| (e.0, e.1@)),
            index_of(v, id) == i + index_of(v.skip(i as int), id),
        decreases s@.len() - i,
    {
        proof {
            assert(v.skip(i as int).drop_first() =~= v.skip(i + 1));
        }
        i = i + 1;
    }
    proof {
        if i < s@.len() {
            assert(v.skip(i as int)[0] == v[i as int]);
        }
    }
    i
}

impl Bot {
    /// A copy of this bot.
    pub fn copy(&self) -> (r: Bot)
        ensures
            r@ == self@,
    {
        Bot {
            holds: vstd::slice::slice_to_vec(self.holds.as_slice()),
            held: vstd::slice::slice_to_vec(self.held.as_slice()),
            low: self.low,
            high: self.high,
        }
    }
}

pub open spec fn bot_views(s: Seq<(usize, Bot)>) -> Seq<(usize, BotV)> {
    s.map_values(|e: (usize, Bot)| (e.0, e.1@))
}

proof fn lemma_took_wf(b: BotV, v: usize)
    requires
        increasing(b.0),
        no_repeats(b.1),
    ensures
        increasing(took(b, v).0),
        no_repeats(took(b, v).1),
{
    lemma_slot(b.0, v);
    let p = slot(b.0, v) as int;
    let h = b.0.insert(p, v);
    assert forall|a: int, c: int| 0 <= a < c < h.len() implies h[a] <= h[c] by {
        if c < p {
        } else if a < p && c == p {
        } else if a < p && c > p {
            assert(b.0[a] <= b.0[c - 1]);
        } else if a == p {
            assert(b.0[p] > v);
            assert(b.0[p] <= b.0[c - 1]);
        } else {
            assert(b.0[a - 1] <= b.0[c - 1]);
        }
    }
    if !b.1.contains(v) {
        let g = b.1.push(v);
        assert forall|a: int, c: int| 0 <= a < c < g.len() implies g[a] != g[c] by {
            if c == b.1.len() {
                assert(g[a] == b.1[a]);
            }
        }
    }
}

proof fn lemma_slot(s: Seq<usize>, v: usize)
    ensures
        slot(s, v) <= s.len(),
        forall|q: int| 0 <= q < slot(s, v) ==> s[q] <= v,
        slot(s, v) < s.len() ==> s[slot(s, v) as int] > v,
    decreases s.len(),
{
    if s.len() > 0 && s[0] <= v {
        lemma_slot(s.drop_first(), v);
        assert forall|q: int| 0 <= q < slot(s, v) implies s[q] <= v by {
            if q > 0 {
                assert(s[q] == s.drop_first()[q - 1]);
            }
        }
    }
}

impl Machine {
    pub open spec fn wf(&self) -> bool {
        machine_wf(self@)
    }

    /// A machine with no bots and no outputs.
    pub fn new() -> (r: Machine)
        ensures
            r.wf(),
            r@.0 == Seq::<(usize, usize)>::empty(),
            r@.1 == Seq::<(usize, BotV)>::empty(),
    {
        let r = Machine { outputs: Vec::new(), bots: Vec::new() };
        assert(r@.1 =~= Seq::<(usize, BotV)>::empty());
        r
    }

    #[verifier::rlimit(30)]
    fn deliver(&mut self, d: Destination, v: usize)
        requires
            old(self).wf(),
        ensures
            final(self).wf(),
            final(self)@ == deliver(old(self)@, d, v),
    {
        let ghost m = self@;
        match d {
            Destination::Bot(id) => {
                let i = index_in_bots(&self.bots, id);
                if i < self.bots.len() {
                    let mut b = self.bots[i].1.copy();
                    proof {
                        assert(m.1[i as int] == (self.bots@[i as int].0, self.bots@[i as int].1@));
                        assert(increasing(m.1[i as int].1.0) && no_repeats(m.1[i as int].1.1));
                        lemma_index_of(m.1, id);
                    }
                    b.take(v);
                    self.bots.set(i, (id, b));
                    proof {
                        lemma_took_wf(m.1[i as int].1, v);
                        assert(self@.1 =~= m.1.update(i as int, (id, took(m.1[i as int].1, v))));
                        assert forall|q: int| 0 <= q < self@.1.len() implies increasing(#[trigger] self@.1[q].1.0) && no_repeats(self@.1[q].1.1) by {
                            if q != i {
                                assert(self@.1[q] == m.1[q]);
                                assert(increasing(m.1[q].1.0));
                            } else {
                                assert(self@.1[q].1 == took(m.1[i as int].1, v));
                            }
                        }
                    }
                } else {
                    let mut b = Bot::new();
                    b.take(v);
                    self.bots.push((id, b));
                    proof {
                        assert(self@.1 =~= m.1.push((id, took((seq![], seq![], Destination::Nowhere, Destination::Nowhere), v))));
                        assert forall|q: int| 0 <= q < self@.1.len() implies increasing(#[trigger] self@.1[q].1.0) && no_repeats(self@.1[q].1.1) by {
                            if q < m.1.len() {
                                assert(self@.1[q] == m.1[q]);
                                assert(increasing(m.1[q].1.0));
                            } else {
                                assert(self@.1[q].1 == b@);
                            }
                        }
                    }
                }
            },
            Destination::Output(id) => {
                let i = index_in_outputs(&self.outputs, id);
                if i < self.outputs.len() {
                    self.outputs.set(i, (id, v));
                } else {
                    self.outputs.push((id, v));
                }
                proof {
                    assert(self@.1 =~= m.1);
                }
            },
            Destination::Nowhere => {},
        }
        proof {
            assert(machine_wf(self@));
        }
    }

    /// One tick: every bot holding two or more chips hands its lowest to its
    /// low target and the next to its high target, all at once.
    pub fn tick(&mut self)
        requires
            old(self).wf(),
        ensures
            final(self).wf(),
            final(self)@ == tick_spec(old(self)@),
    {
        let ghost m = self@;
        let mut hand: Vec<(Destination, usize)> = Vec::new();
        let mut k: usize = 0;
        proof {
            assert(m.1.take(0) =~= Seq::<(usize, BotV)>::empty());
            assert(self@.1 =~= emptied(m.1).take(0) + m.1.skip(0));
        }
        while k < self.bots.len()
            invariant
                k <= self.bots@.len() == m.1.len(),
                machine_wf(m),
                self@.0 == m.0,
                self@.1 == emptied(m.1).take(k as int) + m.1.skip(k as int),
                hand@ == handed(m.1.take(k as int)),
                machine_wf(self@),
            decreases m.1.len() - k,
        {
            proof {
                assert(m.1.take(k + 1).drop_last() =~= m.1.take(k as int));
                assert(self@.1[k as int] == m.1[k as int]);
                assert(self@.1[k as int] == (self.bots@[k as int].0, self.bots@[k as int].1@));
            }
            if self.bots[k].1.holds.len() >= 2 {
                let id = self.bots[k].0;
                let lo = self.bots[k].1.holds[0];
                let hi = self.bots[k].1.holds[1];
                let low = self.bots[k].1.low;
                let high = self.bots[k].1.high;
                hand.push((low, lo));
                hand.push((high, hi));
                let emptied_bot = Bot {
                    holds: Vec::new(),
                    held: vstd::slice::slice_to_vec(self.bots[k].1.held.as_slice()),
                    low,
                    high,
                };
                let ghost before = self@.1;
                self.bots.set(k, (id, emptied_bot));
                proof {
                    assert(emptied_bot@ == (Seq::<usize>::empty(), m.1[k as int].1.1, low, high));
                    assert(self@.1 =~= before.update(k as int, (id, emptied_bot@)));
                    assert(self@.1 =~= emptied(m.1).take(k + 1) + m.1.skip(k + 1));
                    assert(hand@ =~= handed(m.1.take(k + 1)));
                    assert(increasing(m.1[k as int].1.0));
                    assert forall|q: int| 0 <= q < self@.1.len() implies increasing(#[trigger] self@.1[q].1.0) && no_repeats(self@.1[q].1.1) by {
                        if q != k {
                            assert(self@.1[q] == before[q]);
                            assert(increasing(before[q].1.0));
                        }
                    }
                }
            } else {
                proof {
                    assert(self@.1 =~= emptied(m.1).take(k + 1) + m.1.skip(k + 1));
                    assert(hand@ =~= handed(m.1.take(k + 1)));
                }
            }
            k = k + 1;
        }
        proof {
            assert(m.1.take(k as int) =~= m.1);
            assert(self@.1 =~= emptied(m.1));
        }
        let mut j: usize = 0;
        proof {
            assert(hand@.take(0) =~= Seq::<(Destination, usize)>::empty());
        }
        while j < hand.len()
            invariant
                j <= hand@.len(),
                hand@ == handed(m.1),
                self.wf(),
                self@ == deliver_all((m.0, emptied(m.1)), hand@.take(j as int)),
            decreases hand@.len() - j,
        {
            let (d, v) = hand[j];
            proof {
                assert(hand@.take(j + 1).drop_last() =~= hand@.take(j as int));
            }
            self.deliver(d, v);
            j = j + 1;
        }
        proof {
            assert(hand@.take(j as int) =~= hand@);
        }
    }
}

proof fn lemma_index_of<T>(s: Seq<(usize, T)>, id: usize)
    ensures
        index_of(s, id) <= s.len(),
        index_of(s, id) < s.len() ==> s[index_of(s, id) as int].0 == id,
    decreases s.len(),
{
    if s.len() > 0 && s[0].0 != id {
        lemma_index_of(s.drop_first(), id);
    }
}

/// The machine after `n` ticks.
pub open spec fn ticks(m: MachineV, n: nat) -> MachineV
    decreases n,
{
    if n == 0 {
        m
    } else {
        tick_spec(ticks(m, (n - 1) as nat))
    }
}

/// The index of the first bot that has held both `x` and `y`, or the length.
pub open spec fn comparer_index(bots: Seq<(usize, BotV)>, x: usize, y: usize) -> nat
    decreases bots.len(),
{
    if bots.len() == 0 || (bots[0].1.1.contains(x) && bots[0].1.1.contains(y)) {
        0
    } else {
        1 + comparer_index(bots.drop_first(), x, y)
    }
}

/// The number of the first bot that has held both `x` and `y`.
pub open spec fn comparer(m: MachineV, x: usize, y: usize) -> Option<usize> {
    let i = comparer_index(m.1, x, y);
    if i < m.1.len() {
        Some(m.1[i as int].0)
    } else {
        None
    }
}

/// The value in output `id`, if it holds one.
pub open spec fn output(m: MachineV, id: usize) -> Option<usize> {
    let i = index_of(m.0, id);
    if i < m.0.len() {
        Some(m.0[i as int].1)
    } else {
        None
    }
}

/// Outputs 0, 1 and 2 all hold a value.
pub open spec fn outputs_full(m: MachineV) -> bool {
    output(m, 0) is Some && output(m, 1) is Some && output(m, 2) is Some
}

impl Machine {
    fn find_comparer(&self, x: usize, y: usize) -> (r: Option<usize>)
        ensures
            r == comparer(self@, x, y),
    {
        let ghost v = self@.1;
        let mut i: usize = 0;
        proof {
            assert(v.skip(0) =~= v);
        }
        while i < self.bots.len()
            invariant
                v == self@.1,
                i <= v.len(),
                comparer_index(v, x, y) == i + comparer_index(v.skip(i as int), x, y),
            decreases v.len() - i,
        {
            proof {
                assert(v[i as int] == (self.bots@[i as int].0, self.bots@[i as int].1@));
                assert(v.skip(i as int)[0] == v[i as int]);
            }
            if self.bots[i].1.contains(x, y) {
                return Some(self.bots[i].0);
            }
            proof {
                assert(v.skip(i as int).drop_first() =~= v.skip(i + 1));
            }
            i = i + 1;
        }
        None
    }

    fn copy_machine(&self) -> (r: Machine)
        ensures
            r@ == self@,
    {
        let mut bots: Vec<(usize, Bot)> = Vec::new();
        let mut k: usize = 0;
        while k < self.bots.len()
            invariant
                k <= self.bots@.len(),
                bot_views(bots@) == bot_views(self.bots@).take(k as int),
            decreases self.bots@.len() - k,
        {
            let b = self.bots[k].1.copy();
            let ghost before = bots@;
            bots.push((self.bots[k].0, b));
            proof {
                assert(bot_views(bots@) =~= bot_views(before).push((self.bots@[k as int].0, b@)));
                assert(bot_views(bots@) =~= bot_views(self.bots@).take(k + 1));
            }
            k = k + 1;
        }
        proof {
            assert(bot_views(self.bots@).take(k as int) =~= bot_views(self.bots@));
        }
        Machine { outputs: vstd::slice::slice_to_vec(self.outputs.as_slice()), bots }
    }

    /// The number of the bot that compares chips `x` and `y`: the first to
    /// have held both, ticking until one has. Some tick must bring one.
    pub fn who_compares(&self, x: usize, y: usize) -> (r: usize)
        requires
            self.wf(),
            exists|n: nat| n < u64::MAX && #[trigger] comparer(ticks(self@, n), x, y) is Some,
        ensures
            exists|n: nat| #[trigger] comparer(ticks(self@, n), x, y) == Some(r) && forall|j: nat| j < n ==> comparer(#[trigger] ticks(self@, j), x, y) is None,
    {
        let mut m = self.copy_machine();
        let mut n: u64 = 0;
        loop
            invariant
                m.wf(),
                m@ == ticks(self@, n as nat),
                forall|j: nat| j < n ==> comparer(#[trigger] ticks(self@, j), x, y) is None,
                exists|k: nat| k < u64::MAX && #[trigger] comparer(ticks(self@, k), x, y) is Some,
            decreases u64::MAX - n,
        {
            match m.find_comparer(x, y) {
                Some(k) => {
                    return k;
                },
                None => {},
            }
            proof {
                let k = choose|k: nat| k < u64::MAX && #[trigger] comparer(ticks(self@, k), x, y) is Some;
                if k <= n {
                    if k < n {
                        assert(comparer(ticks(self@, k), x, y) is None);
                    }
                }
                assert(n < k);
            }
            m.tick();
            n = n + 1;
        }
    }

    /// The product of outputs 0, 1 and 2 after the first tick that has all
    /// three filled. Some tick must fill them, and the product must fit.
    pub fn products(&self) -> (r: usize)
        requires
            self.wf(),
            exists|n: nat| 1 <= n < u64::MAX && #[trigger] outputs_full(ticks(self@, n)),
            forall|n: nat| #[trigger] outputs_full(ticks(self@, n)) ==> output(ticks(self@, n), 0)->0 * output(ticks(self@, n), 1)->0 <= usize::MAX
                && output(ticks(self@, n), 0)->0 * output(ticks(self@, n), 1)->0 * output(ticks(self@, n), 2)->0 <= usize::MAX,
        ensures
            exists|n: nat|
                1 <= n && #[trigger] outputs_full(ticks(self@, n)) && (forall|j: nat| 1 <= j < n ==> !#[trigger] outputs_full(ticks(self@, j)))
                    && r == output(ticks(self@, n), 0)->0 * output(ticks(self@, n), 1)->0 * output(ticks(self@, n), 2)->0,
    {
        let mut m = self.copy_machine();
        let mut n: u64 = 0;
        loop
            invariant
                m.wf(),
                m@ == ticks(self@, n as nat),
                forall|j: nat| 1 <= j <= n ==> !#[trigger] outputs_full(ticks(self@, j)),
                exists|k: nat| 1 <= k < u64::MAX && #[trigger] outputs_full(ticks(self@, k)),
                forall|k: nat| #[trigger] outputs_full(ticks(self@, k)) ==> output(ticks(self@, k), 0)->0 * output(ticks(self@, k), 1)->0 <= usize::MAX
                    && output(ticks(self@, k), 0)->0 * output(ticks(self@, k), 1)->0 * output(ticks(self@, k), 2)->0 <= usize::MAX,
            decreases u64::MAX - n,
        {
            proof {
                let k = choose|k: nat| 1 <= k < u64::MAX && #[trigger] outputs_full(ticks(self@, k));
                assert(n < k);
            }
            m.tick();
            n = n + 1;
            proof {
                assert(m@ == ticks(self@, n as nat));
            }
            let a = m.output_value(0);
            let b = m.output_value(1);
            let c = m.output_value(2);
            match (a, b, c) {
                (Some(a), Some(b), Some(c)) => {
                    proof {
                        assert(outputs_full(ticks(self@, n as nat)));
                    }
                    let ab = a * b;
                    return ab * c;
                },
                _ => {},
            }
        }
    }

    fn output_value(&self, id: usize) -> (r: Option<usize>)
        ensures
            r == output(self@, id),
    {
        let i = index_in_outputs(&self.outputs, id);
        if i < self.outputs.len() {
            Some(self.outputs[i].1)
        } else {
            None
        }
    }
}

/// The target named by the words `kind n`: `bot n` or `output n`.
pub open spec fn dest_of(kind: Seq<char>, n: Seq<char>) -> Option<Destination> {
    if digits_of(n) is None {
        None
    } else if kind == "bot"@ {
        Some(Destination::Bot(digits_of(n)->0))
    } else if kind == "output"@ {
        Some(Destination::Output(digits_of(n)->0))
    } else {
        None
    }
}

/// A line of the instructions that reads: `value V goes to bot B`,
/// `bot S gives low to K N and high to K N`, or any other non-empty line,
/// which is ignored.
pub open spec fn line_ok(l: Seq<char>) -> bool {
    let w = words(l);
    &&& w.len() > 0
    &&& w[0] == "value"@ ==> w.len() >= 6 && digits_of(w[1]) is Some && digits_of(w[5]) is Some
    &&& w[0] == "bot"@ ==> w.len() >= 12 && digits_of(w[1]) is Some && dest_of(w[5], w[6]) is Some
        && dest_of(w[10], w[11]) is Some
}

/// The machine with bot `id` sending its low chip to `lo` and its high chip
/// to `hi`; the bot is listed if it was not.
pub open spec fn with_rules(m: MachineV, id: usize, lo: Destination, hi: Destination) -> MachineV {
    let i = index_of(m.1, id);
    if i < m.1.len() {
        (m.0, m.1.update(i as int, (id, (m.1[i as int].1.0, m.1[i as int].1.1, lo, hi))))
    } else {
        (m.0, m.1.push((id, (seq![], seq![], lo, hi))))
    }
}

/// What one line does to the machine.
pub open spec fn apply_line(m: MachineV, l: Seq<char>) -> MachineV {
    let w = words(l);
    if w[0] == "value"@ {
        deliver(m, Destination::Bot(digits_of(w[5])->0), digits_of(w[1])->0)
    } else if w[0] == "bot"@ {
        with_rules(m, digits_of(w[1])->0, dest_of(w[5], w[6])->0, dest_of(w[10], w[11])->0)
    } else {
        m
    }
}

/// The machine after the first `n` lines.
pub open spec fn built(ls: Seq<Seq<char>>, n: nat) -> MachineV
    decreases n,
{
    if n == 0 {
        (seq![], seq![])
    } else {
        apply_line(built(ls, (n - 1) as nat), ls[n - 1])
    }
}

fn read_dest(cs: &Vec<char>, k: (usize, usize), n: (usize, usize)) -> (r: Option<Destination>)
    requires
        k.0 <= k.1 <= cs@.len(),
        n.0 <= n.1 <= cs@.len(),
    ensures
        r == dest_of(cs@.subrange(k.0 as int, k.1 as int), cs@.subrange(n.0 as int, n.1 as int)),
{
    let num = match read_digits(cs, n.0, n.1) {
        Some(v) => v,
        None => {
            return None;
        },
    };
    if span_eq(cs, k.0, k.1, "bot") {
        Some(Destination::Bot(num))
    } else if span_eq(cs, k.0, k.1, "output") {
        Some(Destination::Output(num))
    } else {
        None
    }
}

impl Machine {
    fn set_rules(&mut self, id: usize, lo: Destination, hi: Destination)
        requires
            old(self).wf(),
        ensures
            final(self).wf(),
            final(self)@ == with_rules(old(self)@, id, lo, hi),
    {
        let ghost m = self@;
        let i = index_in_bots(&self.bots, id);
        if i < self.bots.len() {
            let mut b = self.bots[i].1.copy();
            proof {
                lemma_index_of(m.1, id);
                assert(m.1[i as int] == (self.bots@[i as int].0, self.bots@[i as int].1@));
            }
            b.gives(lo, hi);
            self.bots.set(i, (id, b));
            proof {
                assert(self@.1 =~= m.1.update(i as int, (id, (m.1[i as int].1.0, m.1[i as int].1.1, lo, hi))));
                assert(increasing(m.1[i as int].1.0));
                assert forall|q: int| 0 <= q < self@.1.len() implies increasing(#[trigger] self@.1[q].1.0) && no_repeats(self@.1[q].1.1) by {
                    if q != i {
                        assert(self@.1[q] == m.1[q]);
                        assert(increasing(m.1[q].1.0));
                    }
                }
            }
        } else {
            let mut b = Bot::new();
            b.gives(lo, hi);
            self.bots.push((id, b));
            proof {
                assert(self@.1 =~= m.1.push((id, (seq![], seq![], lo, hi))));
                assert forall|q: int| 0 <= q < self@.1.len() implies increasing(#[trigger] self@.1[q].1.0) && no_repeats(self@.1[q].1.1) by {
                    if q < m.1.len() {
                        assert(self@.1[q] == m.1[q]);
                        assert(increasing(m.1[q].1.0));
                    }
                }
            }
        }
        proof {
            assert(machine_wf(self@));
        }
    }

    fn apply(&mut self, line: &str)
        requires
            old(self).wf(),
            line_ok(line@),
        ensures
            final(self).wf(),
            final(self)@ == apply_line(old(self)@, line@),
    {
        let cs = chars_of(line);
        let w = word_spans(&cs);
        let ghost ws = words(line@);
        proof {
            assert forall|k: int| 0 <= k < w@.len() implies #[trigger] ws[k] == cs@.subrange(
                w@[k].0 as int,
                w@[k].1 as int,
            ) && w@[k].0 < w@[k].1 <= cs@.len() by {
                assert(w@[k].0 < w@[k].1 <= cs@.len());
            }
            assert(ws[0] == cs@.subrange(w@[0].0 as int, w@[0].1 as int));
        }
        if span_eq(&cs, w[0].0, w[0].1, "value") {
            proof {
                assert(ws[1] == cs@.subrange(w@[1].0 as int, w@[1].1 as int));
                assert(ws[5] == cs@.subrange(w@[5].0 as int, w@[5].1 as int));
            }
            let v = read_digits(&cs, w[1].0, w[1].1);
            let b = read_digits(&cs, w[5].0, w[5].1);
            match (v, b) {
                (Some(v), Some(b)) => self.deliver(Destination::Bot(b), v),
                _ => {},
            }
        } else if span_eq(&cs, w[0].0, w[0].1, "bot") {
            proof {
                assert(ws[1] == cs@.subrange(w@[1].0 as int, w@[1].1 as int));
                assert(ws[5] == cs@.subrange(w@[5].0 as int, w@[5].1 as int));
                assert(ws[6] == cs@.subrange(w@[6].0 as int, w@[6].1 as int));
                assert(ws[10] == cs@.subrange(w@[10].0 as int, w@[10].1 as int));
                assert(ws[11] == cs@.subrange(w@[11].0 as int, w@[11].1 as int));
            }
            let s = read_digits(&cs, w[1].0, w[1].1);
            let lo = read_dest(&cs, w[5], w[6]);
            let hi = read_dest(&cs, w[10], w[11]);
            match (s, lo, hi) {
                (Some(s), Some(lo), Some(hi)) => self.set_rules(s, lo, hi),
                _ => {},
            }
        }
    }
}

/// The machine the instructions `input` set up, line by line.
pub fn generate(input: &str) -> (r: Machine)
    requires
        forall|k: int| 0 <= k < lines(input@).len() ==> #[trigger] line_ok(lines(input@)[k]),
    ensures
        r.wf(),
        r@ == built(lines(input@), lines(input@).len()),
{
    let cs = chars_of(input);
    let spans = line_spans(&cs);
    let ghost ls = lines(input@);
    let mut m = Machine::new();
    let mut i: usize = 0;
    proof {
        assert(m@ == built(ls, 0));
    }
    while i < spans.len()
        invariant
            ls == lines(input@),
            cs@ == input@,
            spans@.len() == ls.len(),
            forall|k: int| 0 <= k < ls.len() ==> #[trigger] line_ok(ls[k]),
            forall|k: int| #![trigger spans@[k]] 0 <= k < spans@.len() ==> spans@[k].0 <= spans@[k].1 <= cs@.len(),
            forall|k: int|
                0 <= k < spans@.len() ==> #[trigger] ls[k] == cs@.subrange(
                    spans@[k].0 as int,
                    spans@[k].1 as int,
                ),
            i <= spans@.len(),
            m.wf(),
            m@ == built(ls, i as nat),
        decreases spans@.len() - i,
    {
        let (st, en) = spans[i];
        proof {
            assert(ls[i as int] == cs@.subrange(st as int, en as int));
            assert(line_ok(ls[i as int]));
        }
        m.apply(input.substring_char(st, en));
        i = i + 1;
    }
    m
}

/// The bot that compares the chips 61 and 17.
pub fn solve(machine: &Machine) -> (r: usize)
    requires
        machine.wf(),
        exists|n: nat| n < u64::MAX && #[trigger] comparer(ticks(machine@, n), 61, 17) is Some,
    ensures
        exists|n: nat| #[trigger] comparer(ticks(machine@, n), 61, 17) == Some(r) && forall|j: nat| j < n ==> comparer(#[trigger] ticks(machine@, j), 61, 17) is None,
{
    machine.who_compares(61, 17)
}

/// The product of outputs 0, 1 and 2 once all three are filled.
pub fn solve2(machine: &Machine) -> (r: usize)
    requires
        machine.wf(),
        exists|n: nat| 1 <= n < u64::MAX && #[trigger] outputs_full(ticks(machine@, n)),
        forall|n: nat| #[trigger] outputs_full(ticks(machine@, n)) ==> output(ticks(machine@, n), 0)->0 * output(ticks(machine@, n), 1)->0 <= usize::MAX
            && output(ticks(machine@, n), 0)->0 * output(ticks(machine@, n), 1)->0 * output(ticks(machine@, n), 2)->0 <= usize::MAX,
    ensures
        exists|n: nat|
            1 <= n && #[trigger] outputs_full(ticks(machine@, n)) && (forall|j: nat| 1 <= j < n ==> !#[trigger] outputs_full(ticks(machine@, j)))
                && r == output(ticks(machine@, n), 0)->0 * output(ticks(machine@, n), 1)->0 * output(ticks(machine@, n), 2)->0,
{
    machine.products()
}

} // verus!
