use vstd::prelude::*;

use crate::key::CacheKey;

verus! {

/// The cache held by a list of entries: each entry maps the view of an input to
/// the output computed for it. Later entries take precedence.
pub open spec fn entries_map<U: View, V>(entries: Seq<(U, V)>) -> Map<U::V, V>
    decreases entries.len(),
{
    if entries.len() == 0 {
        Map::empty()
    } else {
        let last = entries.last();
        entries_map(entries.drop_last()).insert(last.0@, last.1)
    }
}

/// No two entries hold inputs with the same view.
pub open spec fn distinct_inputs<U: View, V>(entries: Seq<(U, V)>) -> bool {
    forall|i: int, j: int|
        0 <= i < entries.len() && 0 <= j < entries.len() && i != j
            ==> #[trigger] entries[i].0@ != #[trigger] entries[j].0@
}

/// An input is cached exactly when some entry holds it, and with distinct
/// inputs the map gives back that entry's output.
proof fn lemma_entries_map<U: View, V>(entries: Seq<(U, V)>)
    requires
        distinct_inputs(entries),
    ensures
        forall|k: U::V|
            #[trigger] entries_map(entries).contains_key(k) <==> exists|i: int|
                0 <= i < entries.len() && entries[i].0@ == k,
        forall|i: int|
            0 <= i < entries.len() ==> entries_map(entries)[#[trigger] entries[i].0@]
                == entries[i].1,
    decreases entries.len(),
{
    if entries.len() > 0 {
        let init = entries.drop_last();
        assert(distinct_inputs(init));
        lemma_entries_map(init);
        assert forall|k: U::V| #[trigger] entries_map(entries).contains_key(k) implies exists|
            i: int,
        | 0 <= i < entries.len() && entries[i].0@ == k by {
            if k != entries.last().0@ {
                assert(entries_map(init).contains_key(k));
                let i = choose|i: int| 0 <= i < init.len() && init[i].0@ == k;
                assert(entries[i] == init[i]);
            }
        }
        assert forall|k: U::V|
            (exists|i: int| 0 <= i < entries.len() && entries[i].0@ == k) implies #[trigger] entries_map(
            entries,
        ).contains_key(k) by {
            let i = choose|i: int| 0 <= i < entries.len() && entries[i].0@ == k;
            if i < entries.len() - 1 {
                assert(init[i] == entries[i]);
                assert(entries_map(init).contains_key(k));
            }
        }
        assert forall|i: int| 0 <= i < entries.len() implies entries_map(
            entries,
        )[#[trigger] entries[i].0@] == entries[i].1 by {
            if i < entries.len() - 1 {
                assert(init[i] == entries[i]);
                assert(entries[i].0@ != entries[entries.len() - 1].0@);
            }
        }
    }
}

/// Wraps a computation and remembers its result for every input it has seen.
#[verifier::reject_recursive_types(U)]
#[verifier::reject_recursive_types(V)]
pub struct Cacher<F, U, V> where F: Fn(U) -> V {
    calculation: F,
    values: Vec<(U, V)>,
}

impl<F, U, V> Cacher<F, U, V> where F: Fn(U) -> V, U: CacheKey, V: Copy {
    /// The wrapped computation.
    pub closed spec fn calculation(&self) -> F {
        self.calculation
    }

    /// The inputs the computation has been run on, in the order it ran.
    pub closed spec fn computed(&self) -> Seq<U> {
        self.values@.map_values(|e: (U, V)| e.0)
    }

    /// Each input has been computed once, and its entry holds a result of the
    /// computation on it.
    pub closed spec fn wf(&self) -> bool {
        &&& distinct_inputs(self.values@)
        &&& forall|i: int|
            0 <= i < self.values.len() ==> #[trigger] self.calculation.ensures(
                (self.values@[i].0,),
                self.values@[i].1,
            )
    }

    /// What one call of `value` on `arg` does, taking the cacher from `self` to
    /// `next` and returning `r`. A seen input gives back its cached output and
    /// leaves everything as it was; a new one runs the computation once and
    /// caches the result.
    pub open spec fn value_step(self, arg: U, next: Self, r: V) -> bool {
        &&& next.calculation() == self.calculation()
        &&& if self@.contains_key(arg@) {
            &&& r == self@[arg@]
            &&& next@ == self@
            &&& next.computed() == self.computed()
        } else {
            &&& self.calculation().ensures((arg,), r)
            &&& next@ == self@.insert(arg@, r)
            &&& next.computed() == self.computed().push(arg)
        }
    }

    /// A cacher around `calculation`, with nothing cached yet.
    pub fn new(calculation: F) -> (r: Self)
        ensures
            r.wf(),
            r.calculation() == calculation,
            r@ == Map::<U::V, V>::empty(),
            r.computed() == Seq::<U>::empty(),
    {
        let r = Cacher { calculation, values: Vec::new() };
        assert(r.computed() =~= Seq::<U>::empty());
        r
    }

    /// The output for `arg`: the cached one if `arg` was seen before, else the
    /// computation's result, which is cached before it is returned.
    pub fn value(&mut self, arg: U) -> (r: V)
        requires
            old(self).wf(),
            old(self).calculation().requires((arg,)),
        ensures
            final(self).wf(),
            old(self).value_step(arg, *final(self), r),
    {
        let entries = &self.values;
        let mut i: usize = 0;
        while i < entries.len()
            invariant
                *self == *old(self),
                self.wf(),
                entries@ == self.values@,
                i <= entries.len(),
                forall|j: int| 0 <= j < i ==> entries@[j].0@ != arg@,
            decreases entries.len() - i,
        {
            if entries[i].0.same_key(&arg) {
                proof {
                    lemma_entries_map(self.values@);
                }
                return entries[i].1;
            }
            i = i + 1;
        }
        proof {
            lemma_entries_map(self.values@);
        }
        let v = (self.calculation)(arg);
        let ghost before = self.values@;
        self.values.push((arg, v));
        proof {
            assert(self.values@.drop_last() =~= before);
            assert(self.computed() =~= old(self).computed().push(arg));
            assert forall|j: int| 0 <= j < self.values.len() implies #[trigger] self.calculation.ensures(
                (self.values@[j].0,),
                self.values@[j].1,
            ) by {
                if j < before.len() {
                    assert(self.values@[j] == before[j]);
                }
            }
        }
        v
    }
}

/// Over a cacher's whole life the computation runs at most once per input:
/// no two runs were on inputs with the same view, and the inputs it ran on are
/// exactly those cached, each cached output being its result on one of them.
pub proof fn lemma_computed_once<F, U, V>(c: Cacher<F, U, V>)
    where F: Fn(U) -> V, U: CacheKey, V: Copy,
    requires
        c.wf(),
    ensures
        forall|i: int, j: int|
            0 <= i < c.computed().len() && 0 <= j < c.computed().len() && i != j
                ==> #[trigger] c.computed()[i]@ != #[trigger] c.computed()[j]@,
        forall|k: U::V|
            #[trigger] c@.contains_key(k) <==> exists|i: int|
                0 <= i < c.computed().len() && c.computed()[i]@ == k,
        forall|i: int|
            0 <= i < c.computed().len() ==> c.calculation().ensures(
                (c.computed()[i],),
                #[trigger] c@[c.computed()[i]@],
            ),
{
    lemma_entries_map(c.values@);
    assert(c.computed().len() == c.values.len());
    assert forall|i: int| 0 <= i < c.computed().len() implies c.computed()[i] == c.values@[i].0 by {}
    assert forall|k: U::V| #[trigger] c@.contains_key(k) implies exists|i: int|
        0 <= i < c.computed().len() && c.computed()[i]@ == k by {
        let i = choose|i: int| 0 <= i < c.values.len() && c.values@[i].0@ == k;
        assert(c.computed()[i] == c.values@[i].0);
    }
    assert forall|k: U::V|
        (exists|i: int| 0 <= i < c.computed().len() && c.computed()[i]@ == k) implies #[trigger] c@.contains_key(k) by {
        let i = choose|i: int| 0 <= i < c.computed().len() && c.computed()[i]@ == k;
        assert(c.computed()[i] == c.values@[i].0);
    }
    assert forall|i: int| 0 <= i < c.computed().len() implies c.calculation().ensures(
        (c.computed()[i],),
        #[trigger] c@[c.computed()[i]@],
    ) by {
        assert(c.calculation.ensures((c.values@[i].0,), c.values@[i].1));
    }
}

/// Calling `value` twice on one input returns the same output both times and
/// leaves the cache as the first call left it; across the two calls the
/// computation runs on that input once if it had not been seen, else never.
pub proof fn lemma_repeat_same_output<F, U, V>(
    c0: Cacher<F, U, V>,
    x: U,
    c1: Cacher<F, U, V>,
    r1: V,
    c2: Cacher<F, U, V>,
    r2: V,
)
    where F: Fn(U) -> V, U: CacheKey, V: Copy,
    requires
        c0.value_step(x, c1, r1),
        c1.value_step(x, c2, r2),
    ensures
        r1 == r2,
        c2@ == c1@,
        c2.computed() == c1.computed(),
        c0@.contains_key(x@) ==> c2.computed() == c0.computed(),
        !c0@.contains_key(x@) ==> c2.computed() == c0.computed().push(x),
{
}

/// The output of `value` is always a result of the computation on the input,
/// or on one with the same view that was cached earlier; for an input not seen
/// before it is the result of running the computation on that very input.
pub proof fn lemma_output_computed<F, U, V>(c0: Cacher<F, U, V>, x: U, c1: Cacher<F, U, V>, r: V)
    where F: Fn(U) -> V, U: CacheKey, V: Copy,
    requires
        c0.wf(),
        c0.value_step(x, c1, r),
    ensures
        !c0@.contains_key(x@) ==> c0.calculation().ensures((x,), r),
        exists|u: U| u@ == x@ && #[trigger] c0.calculation().ensures((u,), r),
{
    lemma_computed_once(c0);
    if c0@.contains_key(x@) {
        let i = choose|i: int| 0 <= i < c0.computed().len() && c0.computed()[i]@ == x@;
        assert(c0.calculation().ensures((c0.computed()[i],), c0@[c0.computed()[i]@]));
    }
}

/// Caching one input does not change the output for another: after `value`
/// on `x`, `value` on an input `y` with another view returns what it would
/// have returned without the first call, and the output cached for `x` stays.
pub proof fn lemma_distinct_inputs_independent<F, U, V>(
    c0: Cacher<F, U, V>,
    x: U,
    c1: Cacher<F, U, V>,
    rx: V,
    y: U,
    c2: Cacher<F, U, V>,
    ry: V,
)
    where F: Fn(U) -> V, U: CacheKey, V: Copy,
    requires
        x@ != y@,
        c0.value_step(x, c1, rx),
        c1.value_step(y, c2, ry),
    ensures
        c2@[x@] == rx,
        c2@[y@] == ry,
        c0@.contains_key(y@) ==> ry == c0@[y@],
        !c0@.contains_key(y@) ==> c0.calculation().ensures((y,), ry),
{
}

impl<F, U, O> View for Cacher<F, U, O> where F: Fn(U) -> O, U: CacheKey, O: Copy {
    type V = Map<<U as View>::V, O>;

    /// The cache: the view of each input seen so far, with its output.
    closed spec fn view(&self) -> Self::V {
        entries_map(self.values@)
    }
}

} // verus!
