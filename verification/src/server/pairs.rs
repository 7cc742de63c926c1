//! Clock models between pairs of receivers. The table knows which ordered pairs
//! have a model; what a model holds is the business of whoever trains it.

use vstd::prelude::*;

use crate::reading::Reading;
use crate::server::grouping::Report;

verus! {

/// The models by ordered pair of slots.
#[derive(Debug)]
pub struct PairTable<M> {
    entries: Vec<(usize, usize, M)>,
}

/// The place of a pair among the first `n` entries.
pub open spec fn pair_place<M>(t: Seq<(usize, usize, M)>, a: usize, b: usize, n: int) -> Option<int>
    decreases n,
{
    if n <= 0 {
        None
    } else if t[n - 1].0 == a && t[n - 1].1 == b {
        Some(n - 1)
    } else {
        pair_place(t, a, b, n - 1)
    }
}

/// The model of a pair.
pub open spec fn model_of<M>(t: Seq<(usize, usize, M)>, a: usize, b: usize) -> Option<M> {
    match pair_place(t, a, b, t.len() as int) {
        Some(i) => Some(t[i].2),
        None => None,
    }
}

/// The table once the model of a pair is entered: in place of the one that the pair
/// has, or behind all others.
pub open spec fn with_model<M>(
    t: Seq<(usize, usize, M)>,
    a: usize,
    b: usize,
    m: M,
) -> Seq<(usize, usize, M)> {
    match pair_place(t, a, b, t.len() as int) {
        Some(i) => t.update(i, (a, b, m)),
        None => t.push((a, b, m)),
    }
}

/// The entries that do not touch a slot, in order.
pub open spec fn without_slot<M>(t: Seq<(usize, usize, M)>, rx: usize) -> Seq<(usize, usize, M)>
    decreases t.len(),
{
    if t.len() == 0 {
        seq![]
    } else {
        let rest = without_slot(t.drop_last(), rx);
        if t.last().0 == rx || t.last().1 == rx {
            rest
        } else {
            rest.push(t.last())
        }
    }
}

/// The slots that a slot has models towards, in order.
pub open spec fn peers<M>(t: Seq<(usize, usize, M)>, a: usize) -> Seq<usize>
    decreases t.len(),
{
    if t.len() == 0 {
        seq![]
    } else {
        let rest = peers(t.drop_last(), a);
        if t.last().0 == a {
            rest.push(t.last().1)
        } else {
            rest
        }
    }
}

proof fn lemma_pair_place<M>(t: Seq<(usize, usize, M)>, a: usize, b: usize, n: int)
    requires
        0 <= n <= t.len(),
    ensures
        match pair_place(t, a, b, n) {
            Some(i) => 0 <= i < n && t[i].0 == a && t[i].1 == b,
            None => forall|i: int| 0 <= i < n ==> !((#[trigger] t[i]).0 == a && t[i].1 == b),
        },
    decreases n,
{
    if n > 0 {
        lemma_pair_place(t, a, b, n - 1);
    }
}

proof fn lemma_pair_place_prefix<M>(
    t: Seq<(usize, usize, M)>,
    u: Seq<(usize, usize, M)>,
    a: usize,
    b: usize,
    n: int,
)
    requires
        0 <= n <= t.len(),
        n <= u.len(),
        forall|i: int|
            0 <= i < n ==> (#[trigger] t[i]).0 == (#[trigger] u[i]).0 && t[i].1 == u[i].1,
    ensures
        pair_place(t, a, b, n) == pair_place(u, a, b, n),
    decreases n,
{
    if n > 0 {
        assert(t[n - 1].0 == u[n - 1].0);
        lemma_pair_place_prefix(t, u, a, b, n - 1);
    }
}

impl<M> PairTable<M> {
    pub closed spec fn table(&self) -> Seq<(usize, usize, M)> {
        self.entries@
    }

    pub fn new() -> (r: Self)
        ensures
            r.table() == Seq::<(usize, usize, M)>::empty(),
    {
        PairTable { entries: Vec::new() }
    }

    fn position(&self, a: usize, b: usize) -> (r: Option<usize>)
        ensures
            match r {
                Some(i) => pair_place(self.table(), a, b, self.table().len() as int) == Some(
                    i as int,
                ) && i < self.entries@.len(),
                None => pair_place(self.table(), a, b, self.table().len() as int) is None,
            },
    {
        let mut i: usize = self.entries.len();
        while i > 0
            invariant
                i <= self.entries@.len(),
                pair_place(self.entries@, a, b, self.entries@.len() as int) == pair_place(
                    self.entries@,
                    a,
                    b,
                    i as int,
                ),
            decreases i,
        {
            if self.entries[i - 1].0 == a && self.entries[i - 1].1 == b {
                return Some(i - 1);
            }
            i = i - 1;
        }
        None
    }

    /// The model of a pair, if there is one.
    pub fn get(&self, a: usize, b: usize) -> (r: Option<&M>)
        ensures
            match r {
                Some(m) => model_of(self.table(), a, b) == Some(*m),
                None => model_of(self.table(), a, b) is None,
            },
    {
        match self.position(a, b) {
            Some(i) => Some(&self.entries[i].2),
            None => None,
        }
    }

    /// Enters the model of a pair and returns the one that it replaces.
    pub fn put(&mut self, a: usize, b: usize, m: M) -> (r: Option<M>)
        ensures
            r == model_of(old(self).table(), a, b),
            final(self).table() == with_model(old(self).table(), a, b, m),
    {
        let ghost t = self.entries@;
        match self.position(a, b) {
            Some(i) => {
                self.entries.push((a, b, m));
                let old_entry = self.entries.swap_remove(i);
                assert(self.entries@ =~= t.update(i as int, (a, b, m)));
                Some(old_entry.2)
            },
            None => {
                self.entries.push((a, b, m));
                None
            },
        }
    }

    /// Drops every model that touches a slot.
    pub fn forget(&mut self, rx: usize)
        ensures
            final(self).table() == without_slot(old(self).table(), rx),
    {
        let ghost t = self.entries@;
        let ghost mut done: int = 0;
        let mut i: usize = 0;
        assert(t.skip(0) =~= t);
        assert(without_slot(t.take(0), rx) + t.skip(0) =~= t);
        while i < self.entries.len()
            invariant
                t == old(self).table(),
                0 <= done <= t.len(),
                i == without_slot(t.take(done), rx).len(),
                i <= self.entries@.len(),
                self.entries@ == without_slot(t.take(done), rx) + t.skip(done),
            decreases t.len() - done,
        {
            let ghost head = without_slot(t.take(done), rx);
            assert(done < t.len());
            assert(self.entries@[i as int] == t[done]);
            assert(t.take(done + 1).drop_last() =~= t.take(done));
            assert(t.take(done + 1).last() == t[done]);
            if self.entries[i].0 == rx || self.entries[i].1 == rx {
                let ghost before = self.entries@;
                self.entries.remove(i);
                assert(self.entries@ =~= before.remove(i as int));
                assert(before.remove(i as int) =~= head + t.skip(done + 1));
            } else {
                assert(head + t.skip(done) =~= head.push(t[done]) + t.skip(done + 1));
                i = i + 1;
            }
            proof {
                done = done + 1;
            }
        }
        proof {
            assert(t.skip(done).len() == 0);
            assert(t.take(done) =~= t);
            assert(without_slot(t, rx) + t.skip(done) =~= without_slot(t, rx));
        }
    }

    /// The slots that a slot has models towards.
    pub fn peers_of(&self, a: usize) -> (r: Vec<usize>)
        ensures
            r@ == peers(self.table(), a),
    {
        let mut out: Vec<usize> = Vec::new();
        let ghost t = self.entries@;
        let mut i: usize = 0;
        while i < self.entries.len()
            invariant
                t == self.entries@,
                i <= t.len(),
                out@ == peers(t.take(i as int), a),
            decreases t.len() - i,
        {
            assert(t.take(i + 1).drop_last() =~= t.take(i as int));
            assert(t.take(i + 1).last() == t[i as int]);
            if self.entries[i].0 == a {
                out.push(self.entries[i].1);
            }
            i = i + 1;
        }
        assert(t.take(t.len() as int) =~= t);
        out
    }
}

/// A pair whose model is entered has that model, and every other pair keeps its own.
pub proof fn law_entered_model_is_found<M>(
    t: Seq<(usize, usize, M)>,
    a: usize,
    b: usize,
    m: M,
    c: usize,
    d: usize,
)
    ensures
        model_of(with_model(t, a, b, m), a, b) == Some(m),
        c != a || d != b ==> model_of(with_model(t, a, b, m), c, d) == model_of(t, c, d),
{
    let u = with_model(t, a, b, m);
    lemma_pair_place(t, a, b, t.len() as int);
    lemma_pair_place(t, c, d, t.len() as int);
    lemma_pair_place_prefix(u, t, a, b, t.len() as int);
    lemma_pair_place_prefix(u, t, c, d, t.len() as int);
}

// ------------------------------------------------------------------ training

/// One step of training: an event that slot `a` heard at `ta` and slot `b` at `tb`
/// trains the model of the pair of `a` and `b`.
#[derive(Debug, Clone, Copy)]
pub struct Training {
    pub a: usize,
    pub b: usize,
    pub ta: Reading,
    pub tb: Reading,
}

/// The steps that two reports of one even/odd pair make: the even frame trains the
/// models of both directions, then the odd frame does.
pub open spec fn steps_against(mine: Report, o: Report) -> Seq<Training> {
    seq![
        Training { a: mine.rx, b: o.rx, ta: mine.te, tb: o.te },
        Training { a: o.rx, b: mine.rx, ta: o.te, tb: mine.te },
        Training { a: mine.rx, b: o.rx, ta: mine.to, tb: o.to },
        Training { a: o.rx, b: mine.rx, ta: o.to, tb: mine.to },
    ]
}

/// The steps that a report makes with those of others, in order.
pub open spec fn steps_with(mine: Report, others: Seq<Report>) -> Seq<Training>
    decreases others.len(),
{
    if others.len() == 0 {
        seq![]
    } else {
        steps_with(mine, others.drop_last()) + steps_against(mine, others.last())
    }
}

/// Lists the steps that a report makes with those of others; see `steps_with`.
pub fn training_steps(mine: Report, others: &Vec<Report>) -> (r: Vec<Training>)
    ensures
        r@ == steps_with(mine, others@),
{
    let mut out: Vec<Training> = Vec::new();
    let mut i: usize = 0;
    while i < others.len()
        invariant
            i <= others@.len(),
            out@ == steps_with(mine, others@.take(i as int)),
        decreases others@.len() - i,
    {
        let o = others[i];
        let ghost before = out@;
        out.push(Training { a: mine.rx, b: o.rx, ta: mine.te, tb: o.te });
        out.push(Training { a: o.rx, b: mine.rx, ta: o.te, tb: mine.te });
        out.push(Training { a: mine.rx, b: o.rx, ta: mine.to, tb: o.to });
        out.push(Training { a: o.rx, b: mine.rx, ta: o.to, tb: mine.to });
        proof {
            assert(out@ =~= before + steps_against(mine, o));
            assert(others@.take(i + 1).drop_last() =~= others@.take(i as int));
        }
        i = i + 1;
    }
    assert(others@.take(others@.len() as int) =~= others@);
    out
}

/// The table once every step's pair has had its model entered, in order; `models`
/// are those models.
pub open spec fn trained<M>(
    t: Seq<(usize, usize, M)>,
    steps: Seq<Training>,
    models: Seq<M>,
) -> Seq<(usize, usize, M)>
    decreases steps.len(),
{
    if steps.len() == 0 {
        t
    } else {
        let n = steps.len() - 1;
        with_model(trained(t, steps.drop_last(), models), steps[n].a, steps[n].b, models[n])
    }
}

/// Every pair that a step trains has a model afterwards, and a pair that has one keeps
/// one.
pub proof fn law_trained_pairs_have_models<M>(
    t: Seq<(usize, usize, M)>,
    steps: Seq<Training>,
    models: Seq<M>,
    a: usize,
    b: usize,
)
    ensures
        (exists|i: int| 0 <= i < steps.len() && #[trigger] steps[i].a == a && steps[i].b == b)
            || model_of(t, a, b) is Some ==> model_of(trained(t, steps, models), a, b) is Some,
    decreases steps.len(),
{
    if steps.len() > 0 {
        let n = steps.len() - 1;
        let less = steps.drop_last();
        law_trained_pairs_have_models(t, less, models, a, b);
        let u = trained(t, less, models);
        law_entered_model_is_found(u, steps[n].a, steps[n].b, models[n], a, b);
        if exists|i: int| 0 <= i < steps.len() && #[trigger] steps[i].a == a && steps[i].b == b {
            let i = choose|i: int|
                0 <= i < steps.len() && #[trigger] steps[i].a == a && steps[i].b == b;
            if i < n {
                assert(less[i].a == a && less[i].b == b);
            }
        }
    }
}

/// Receivers that report the same even/odd pair become peers of each other, whatever
/// models their steps leave.
pub proof fn law_training_makes_peers<M>(
    t: Seq<(usize, usize, M)>,
    mine: Report,
    others: Seq<Report>,
    models: Seq<M>,
    k: int,
)
    requires
        0 <= k < others.len(),
    ensures
        ({
            let u = trained(t, steps_with(mine, others), models);
            peers(u, mine.rx).contains(others[k].rx) && peers(u, others[k].rx).contains(mine.rx)
        }),
{
    let steps = steps_with(mine, others);
    let u = trained(t, steps, models);
    let o = others[k];
    lemma_step_place(mine, others, k);
    assert(steps[4 * k].a == mine.rx && steps[4 * k].b == o.rx);
    assert(steps[4 * k + 1].a == o.rx && steps[4 * k + 1].b == mine.rx);
    law_trained_pairs_have_models(t, steps, models, mine.rx, o.rx);
    law_trained_pairs_have_models(t, steps, models, o.rx, mine.rx);
    law_peers_have_models(u, mine.rx, o.rx);
    law_peers_have_models(u, o.rx, mine.rx);
}

/// The steps with one report stand together.
proof fn lemma_step_place(mine: Report, others: Seq<Report>, k: int)
    requires
        0 <= k < others.len(),
    ensures
        steps_with(mine, others).len() == 4 * others.len(),
        steps_with(mine, others).subrange(4 * k, 4 * k + 4) == steps_against(mine, others[k]),
        steps_with(mine, others)[4 * k] == steps_against(mine, others[k])[0],
        steps_with(mine, others)[4 * k + 1] == steps_against(mine, others[k])[1],
    decreases others.len(),
{
    let less = others.drop_last();
    let s = steps_with(mine, others);
    lemma_step_count(mine, less);
    if k < less.len() {
        lemma_step_place(mine, less, k);
        assert(s.subrange(4 * k, 4 * k + 4) =~= steps_with(mine, less).subrange(4 * k, 4 * k + 4));
    } else {
        assert(s.subrange(4 * k, 4 * k + 4) =~= steps_against(mine, others[k]));
    }
}

proof fn lemma_step_count(mine: Report, others: Seq<Report>)
    ensures
        steps_with(mine, others).len() == 4 * others.len(),
    decreases others.len(),
{
    if others.len() > 0 {
        lemma_step_count(mine, others.drop_last());
    }
}

/// After a slot is forgotten no pair with it has a model, and every other pair
/// keeps its own.
pub proof fn law_forgotten_slot_has_no_pairs<M>(
    t: Seq<(usize, usize, M)>,
    rx: usize,
    a: usize,
    b: usize,
)
    ensures
        a == rx || b == rx ==> model_of(without_slot(t, rx), a, b) is None,
        a != rx && b != rx ==> model_of(without_slot(t, rx), a, b) == model_of(t, a, b),
    decreases t.len(),
{
    if t.len() > 0 {
        let s = t.drop_last();
        law_forgotten_slot_has_no_pairs(s, rx, a, b);
        lemma_pair_place_prefix(s, t, a, b, s.len() as int);
        lemma_pair_place(s, a, b, s.len() as int);
        let r = without_slot(s, rx);
        let w = without_slot(t, rx);
        if !(t.last().0 == rx || t.last().1 == rx) {
            lemma_pair_place_prefix(r, w, a, b, r.len() as int);
            lemma_pair_place(r, a, b, r.len() as int);
        }
    }
}

/// The peers of a slot are those that it has a model towards.
pub proof fn law_peers_have_models<M>(t: Seq<(usize, usize, M)>, a: usize, b: usize)
    ensures
        peers(t, a).contains(b) <==> model_of(t, a, b) is Some,
    decreases t.len(),
{
    if t.len() > 0 {
        let s = t.drop_last();
        law_peers_have_models(s, a, b);
        lemma_pair_place_prefix(s, t, a, b, s.len() as int);
        let (p, q) = (peers(s, a), peers(t, a));
        if t.last().0 == a {
            if q.contains(b) && t.last().1 != b {
                let k = choose|k: int| 0 <= k < q.len() && q[k] == b;
                assert(p[k] == b);
            }
            if p.contains(b) {
                let k = choose|k: int| 0 <= k < p.len() && p[k] == b;
                assert(q[k] == b);
            }
            assert(q[q.len() - 1] == t.last().1);
        }
    }
}

/// The two ends of a step heard one event: each end's time is that of its own report, and both
/// are of the frame of one parity.
pub open spec fn is_of_one_event(s: Training, x: Report, y: Report) -> bool {
    &&& s.a == x.rx && s.b == y.rx
    &&& (s.ta == x.te && s.tb == y.te) || (s.ta == x.to && s.tb == y.to)
}

/// Every step trains the report's receiver with one of the others, in either direction, by the
/// times at which the two heard one frame.
pub proof fn law_steps_are_of_one_event(mine: Report, others: Seq<Report>, k: int) -> (j: int)
    requires
        0 <= k < steps_with(mine, others).len(),
    ensures
        0 <= j < others.len(),
        is_of_one_event(steps_with(mine, others)[k], mine, others[j]) || is_of_one_event(
            steps_with(mine, others)[k],
            others[j],
            mine,
        ),
    decreases others.len(),
{
    let r = others.drop_last();
    let rest = steps_with(mine, r);
    if k < rest.len() {
        let j = law_steps_are_of_one_event(mine, r, k);
        assert(steps_with(mine, others)[k] == rest[k]);
        assert(r[j] == others[j]);
        j
    } else {
        let s = steps_against(mine, others.last());
        assert(steps_with(mine, others)[k] == s[k - rest.len()]);
        assert(k - rest.len() == 0 || k - rest.len() == 1 || k - rest.len() == 2 || k - rest.len()
            == 3);
        others.len() - 1
    }
}

/// With each other report both frames train both directions, once.
pub proof fn law_both_frames_train_both_ways(mine: Report, others: Seq<Report>, j: int)
    requires
        0 <= j < others.len(),
    ensures
        ({
            let s = steps_with(mine, others);
            let o = others[j];
            &&& s.len() == 4 * others.len()
            &&& exists|k: int|
                0 <= k < s.len() && (#[trigger] s[k]).a == mine.rx && s[k].b == o.rx && s[k].ta
                    == mine.te && s[k].tb == o.te
            &&& exists|k: int|
                0 <= k < s.len() && (#[trigger] s[k]).a == o.rx && s[k].b == mine.rx && s[k].ta
                    == o.te && s[k].tb == mine.te
            &&& exists|k: int|
                0 <= k < s.len() && (#[trigger] s[k]).a == mine.rx && s[k].b == o.rx && s[k].ta
                    == mine.to && s[k].tb == o.to
            &&& exists|k: int|
                0 <= k < s.len() && (#[trigger] s[k]).a == o.rx && s[k].b == mine.rx && s[k].ta
                    == o.to && s[k].tb == mine.to
        }),
{
    let s = steps_with(mine, others);
    lemma_step_place(mine, others, j);
    let part = s.subrange(4 * j, 4 * j + 4);
    assert(part[0] == s[4 * j]);
    assert(part[1] == s[4 * j + 1]);
    assert(part[2] == s[4 * j + 2]);
    assert(part[3] == s[4 * j + 3]);
}

/// Each pair has one entry at most.
pub open spec fn one_model_each<M>(t: Seq<(usize, usize, M)>) -> bool {
    forall|i: int, j: int|
        0 <= i < j < t.len() ==> (#[trigger] t[i]).0 != (#[trigger] t[j]).0 || t[i].1 != t[j].1
}

/// Entering a model leaves each pair with one entry: it replaces the pair's own, or is one
/// more where the pair had none.
pub proof fn law_one_model_per_pair<M>(t: Seq<(usize, usize, M)>, a: usize, b: usize, m: M)
    requires
        one_model_each(t),
    ensures
        one_model_each(with_model(t, a, b, m)),
        with_model(t, a, b, m).len() == (if model_of(t, a, b) is Some {
            t.len()
        } else {
            t.len() + 1
        }),
{
    lemma_pair_place(t, a, b, t.len() as int);
}

/// A report makes four steps with each other one.
pub proof fn law_four_steps_with_each(mine: Report, others: Seq<Report>)
    ensures
        steps_with(mine, others).len() == 4 * others.len(),
{
    lemma_step_count(mine, others);
}

} // verus!
