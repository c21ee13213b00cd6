//! Parsed syntax trees, detached from the chart they were found in.
use crate::digest::xxh3_digest;
use crate::items::{lemma_reducer_range, lemma_reducers_wf, Reducer};
use crate::text::{decimal, push_decimal};
use std::hash::Hash;
use std::ops::Range;
use vstd::prelude::*;

verus! {

/// The digests of a reducer's value and, recursively, of the values of the antecedents it
/// covers, in the same shape.
pub struct ValueDigests {
    pub(crate) digest: u64,
    pub(crate) children: Vec<ValueDigests>,
}

impl ValueDigests {
    /// The digest of the value itself.
    pub open(crate) spec fn spec_digest(self) -> u64 {
        self.digest
    }

    /// The digests of the antecedents.
    pub open(crate) spec fn spec_children(self) -> Seq<ValueDigests> {
        self.children@
    }

    /// Builds digests from the digest of a value and those of its antecedents.
    pub fn new(digest: u64, children: Vec<ValueDigests>) -> (r: Self)
        ensures
            r.spec_digest() == digest,
            r.spec_children() == children@,
    {
        ValueDigests { digest, children }
    }

    /// Digests the value of the reducer and, recursively, those of its antecedents.
    pub fn of<T: Hash, M>(reducer: &Reducer<T, M>) -> (r: Self)
        requires
            reducer.wf(),
        ensures
            digests_fit(r, *reducer),
    {
        let digest = |x: &T| -> (d: u64) { xxh3_digest(x) };
        Self::of_by(reducer, &digest)
    }

    /// Digests, by `digest`, the value of the reducer and, recursively, those of its
    /// antecedents: every node's digest is what `digest` gives on that node's own value, inputs
    /// and conclusions alike.
    pub fn of_by<T, M, F: Fn(&T) -> u64>(reducer: &Reducer<T, M>, digest: &F) -> (r: Self)
        requires
            reducer.wf(),
            forall|x: &T| #[trigger] digest.requires((x,)),
        ensures
            digests_fit(r, *reducer),
            forall|g: spec_fn(T) -> u64|
                (forall|x: &T, d: u64| #[trigger] digest.ensures((x,), d) ==> d == g(*x)) ==> #[trigger] digests_under(
                    r,
                    *reducer,
                    g,
                ),
        decreases reducer,
    {
        let d = digest(reducer.value());
        let mut children: Vec<ValueDigests> = Vec::new();
        match reducer {
            Reducer::Input(_) => {},
            Reducer::Conclusion(c) => {
                let ants = c.antecedents();
                proof {
                    lemma_reducers_wf(c.0.antecedents@);
                }
                let mut i: usize = 0;
                while i < ants.len()
                    invariant
                        *reducer == Reducer::Conclusion(*c),
                        ants@ == c.0.antecedents@,
                        forall|j: int| 0 <= j < ants@.len() ==> (#[trigger] ants@[j]).wf(),
                        forall|x: &T| #[trigger] digest.requires((x,)),
                        i <= ants@.len(),
                        children@.len() == i,
                        digests_fit_seq(children@, ants@.subrange(0, i as int)),
                        forall|g: spec_fn(T) -> u64|
                            (forall|x: &T, d: u64| #[trigger] digest.ensures((x,), d) ==> d == g(*x))
                                ==> #[trigger] digests_under_seq(children@, ants@.subrange(0, i as int), g),
                    decreases ants@.len() - i,
                {
                    proof {
                        assert(decreases_to!(*reducer => (*reducer)->Conclusion_0));
                        assert(decreases_to!((*reducer)->Conclusion_0 => (*reducer)->Conclusion_0.0));
                        assert(decreases_to!((*reducer)->Conclusion_0.0 => (*reducer)->Conclusion_0.0.antecedents));
                        assert(decreases_to!(c.0.antecedents => c.0.antecedents@));
                        assert(decreases_to!(c.0.antecedents@ => c.0.antecedents@[i as int]));
                    }
                    let child = ValueDigests::of_by(&ants[i], digest);
                    let ghost before = children@;
                    children.push(child);
                    proof {
                        assert(children@.drop_last() =~= before);
                        assert(ants@.subrange(0, i + 1).drop_last() =~= ants@.subrange(0, i as int));
                        assert forall|g: spec_fn(T) -> u64|
                            (forall|x: &T, d: u64| #[trigger] digest.ensures((x,), d) ==> d == g(*x))
                                implies #[trigger] digests_under_seq(children@, ants@.subrange(0, i + 1), g) by {
                            assert(digests_under(child, ants@[i as int], g));
                            assert(digests_under_seq(before, ants@.subrange(0, i as int), g));
                        }
                    }
                    i = i + 1;
                }
                assert(ants@.subrange(0, i as int) =~= ants@);
                assert forall|g: spec_fn(T) -> u64|
                    (forall|x: &T, d: u64| #[trigger] digest.ensures((x,), d) ==> d == g(*x))
                        implies #[trigger] digests_under_seq(children@, c.spec_antecedents(), g) by {
                    assert(digests_under_seq(children@, ants@.subrange(0, i as int), g));
                }
            },
        }
        let r = ValueDigests { digest: d, children };
        proof {
            assert forall|g: spec_fn(T) -> u64|
                (forall|x: &T, d: u64| #[trigger] digest.ensures((x,), d) ==> d == g(*x)) implies #[trigger] digests_under(
                r,
                *reducer,
                g,
            ) by {
                assert(digest.ensures((&reducer.spec_value(),), d));
                match *reducer {
                    Reducer::Conclusion(c) => {
                        assert(digests_under_seq(r.spec_children(), c.spec_antecedents(), g));
                    },
                    _ => {},
                }
            }
        }
        r
    }
}

/// Every digest is, under the digest function `g`, that of the value of the reducer at the same
/// place: the reducer's own and, recursively, its antecedents'.
pub open spec fn digests_under<T, M>(d: ValueDigests, r: Reducer<T, M>, g: spec_fn(T) -> u64) -> bool
    decreases r,
{
    &&& d.spec_digest() == g(r.spec_value())
    &&& match r {
        Reducer::Input(_) => true,
        Reducer::Conclusion(c) => digests_under_seq(d.spec_children(), c.spec_antecedents(), g),
    }
}

/// Each entry of `ds` holds, under `g`, the digests of the reducer at the same position of `rs`.
pub open spec fn digests_under_seq<T, M>(ds: Seq<ValueDigests>, rs: Seq<Reducer<T, M>>, g: spec_fn(T) -> u64) -> bool
    decreases rs,
{
    if rs.len() == 0 {
        true
    } else {
        &&& digests_under_seq(ds.drop_last(), rs.drop_last(), g)
        &&& digests_under(ds.last(), rs.last(), g)
    }
}

/// The digests have the shape of the reducer: one entry for each antecedent, all the way down.
pub open(crate) spec fn digests_fit<T, M>(d: ValueDigests, r: Reducer<T, M>) -> bool
    decreases r,
{
    match r {
        Reducer::Input(_) => d.spec_children().len() == 0,
        Reducer::Conclusion(c) => digests_fit_seq(d.spec_children(), c.spec_antecedents()),
    }
}

/// Each entry of `ds` fits the reducer at the same position of `rs`.
pub open(crate) spec fn digests_fit_seq<T, M>(ds: Seq<ValueDigests>, rs: Seq<Reducer<T, M>>) -> bool
    decreases rs,
{
    if rs.len() == 0 {
        ds.len() == 0
    } else {
        &&& ds.len() == rs.len()
        &&& digests_fit_seq(ds.drop_last(), rs.drop_last())
        &&& digests_fit(ds.last(), rs.last())
    }
}

/// The antecedents of `r`, where each antecedent whose value has the digest `key` (the digest
/// of `r`'s own value) is replaced, recursively, by its own antecedents: the children of `r` in
/// its syntax tree, each with its digests.
pub open(crate) spec fn flattened<T, M>(r: Reducer<T, M>, d: ValueDigests) -> Seq<(Reducer<T, M>, ValueDigests)>
    decreases r,
{
    match r {
        Reducer::Input(_) => Seq::empty(),
        Reducer::Conclusion(c) => flattened_seq(c.spec_antecedents(), d.spec_children(), d.spec_digest()),
    }
}

/// The flattening of a sequence of antecedents `rs` with their digests `ds` against `key`.
pub open(crate) spec fn flattened_seq<T, M>(rs: Seq<Reducer<T, M>>, ds: Seq<ValueDigests>, key: u64) -> Seq<
    (Reducer<T, M>, ValueDigests),
>
    decreases rs,
{
    if rs.len() == 0 {
        Seq::empty()
    } else {
        flattened_seq(rs.drop_last(), ds.drop_last(), key) + if ds.last().spec_digest() == key {
            flattened(rs.last(), ds.last())
        } else {
            seq![(rs.last(), ds.last())]
        }
    }
}

/// The flattening of the antecedents of `r` with the digests `d` against `key`.
pub open(crate) spec fn flattened_against<T, M>(r: Reducer<T, M>, d: ValueDigests, key: u64) -> Seq<
    (Reducer<T, M>, ValueDigests),
> {
    match r {
        Reducer::Input(_) => Seq::empty(),
        Reducer::Conclusion(c) => flattened_seq(c.spec_antecedents(), d.spec_children(), key),
    }
}

/// The reducers of a sequence of flattened antecedents, without their digests.
pub open(crate) spec fn firsts<T, M>(ps: Seq<(Reducer<T, M>, ValueDigests)>) -> Seq<Reducer<T, M>> {
    ps.map_values(|p: (Reducer<T, M>, ValueDigests)| p.0)
}

/// The flattened antecedents of the reducer, against `key`.
fn flattened_reducers<T, M>(reducer: &Reducer<T, M>, digests: &ValueDigests, key: u64) -> (v: Vec<
    Reducer<T, M>,
>)
    requires
        digests_fit(*digests, *reducer),
    ensures
        v@ == firsts(flattened_against(*reducer, *digests, key)),
    decreases reducer,
{
    let mut v: Vec<Reducer<T, M>> = Vec::new();
    match reducer {
        Reducer::Input(_) => {
            assert(v@ =~= firsts(flattened_against(*reducer, *digests, key)));
        },
        Reducer::Conclusion(c) => {
            let ants = c.antecedents();
            let mut i: usize = 0;
            while i < ants.len()
                invariant
                    *reducer == Reducer::Conclusion(*c),
                    ants@ == c.0.antecedents@,
                    digests_fit_seq(digests.spec_children(), ants@),
                    i <= ants@.len(),
                    v@ == firsts(
                        flattened_seq(
                            ants@.subrange(0, i as int),
                            digests.spec_children().subrange(0, i as int),
                            key,
                        ),
                    ),
                decreases ants@.len() - i,
            {
                proof {
                    assert(decreases_to!(*reducer => (*reducer)->Conclusion_0));
                    assert(decreases_to!((*reducer)->Conclusion_0 => (*reducer)->Conclusion_0.0));
                    assert(decreases_to!((*reducer)->Conclusion_0.0 => (*reducer)->Conclusion_0.0.antecedents));
                    assert(decreases_to!(c.0.antecedents => c.0.antecedents@));
                    assert(decreases_to!(c.0.antecedents@ => c.0.antecedents@[i as int]));
                    lemma_digests_fit_prefix(digests.spec_children(), ants@, i as int);
                }
                let child = &digests.children[i];
                let ghost rs = ants@.subrange(0, i + 1);
                let ghost ds = digests.spec_children().subrange(0, i + 1);
                let ghost prev = flattened_seq(
                    ants@.subrange(0, i as int),
                    digests.spec_children().subrange(0, i as int),
                    key,
                );
                proof {
                    assert(rs.drop_last() =~= ants@.subrange(0, i as int));
                    assert(ds.drop_last() =~= digests.spec_children().subrange(0, i as int));
                    assert(rs.last() == ants@[i as int]);
                    assert(ds.last() == digests.spec_children()[i as int]);
                }
                let ghost before = v@;
                if child.digest == key {
                    let mut more = flattened_reducers(&ants[i], child, key);
                    let ghost more_view = more@;
                    v.append(&mut more);
                    proof {
                        let piece = flattened(ants@[i as int], *child);
                        assert(flattened_against(ants@[i as int], *child, key) == piece);
                        assert(firsts(prev + piece) =~= firsts(prev) + firsts(piece));
                        assert(v@ =~= before + more_view);
                    }
                } else {
                    v.push(ants[i].clone());
                    proof {
                        let piece = seq![(ants@[i as int], *child)];
                        assert(firsts(prev + piece) =~= firsts(prev) + firsts(piece));
                        assert(firsts(piece) =~= seq![ants@[i as int]]);
                        assert(v@ =~= before + seq![ants@[i as int]]);
                    }
                }
                i = i + 1;
            }
            assert(ants@.subrange(0, i as int) =~= ants@);
            proof {
                lemma_digests_fit_prefix(digests.spec_children(), ants@, i as int);
                assert(digests.spec_children().subrange(0, i as int) =~= digests.spec_children());
            }
        },
    }
    v
}

impl<T, M> Reducer<T, M> {
    /// The antecedents this reducer covers, flattened by the given digests: each antecedent
    /// whose value has the digest of this reducer's value is replaced, recursively, by its own
    /// antecedents.
    pub fn antecedents_flattened_with(&self, digests: &ValueDigests) -> (r: Vec<Reducer<T, M>>)
        requires
            digests_fit(*digests, *self),
        ensures
            r@ == firsts(flattened(*self, *digests)),
    {
        flattened_reducers(self, digests, digests.digest)
    }

    /// The antecedents this reducer covers, flattened: each antecedent whose value has the same
    /// digest as this reducer's value is replaced, recursively, by its own antecedents. The
    /// digests come from the values' `Hash` impl.
    pub fn antecedents_flattened(&self) -> (r: Vec<Reducer<T, M>>)
        where
            T: Hash,
        requires
            self.wf(),
        ensures
            exists|d: ValueDigests| digests_fit(d, *self) && r@ == firsts(flattened(*self, d)),
    {
        let digests = ValueDigests::of(self);
        self.antecedents_flattened_with(&digests)
    }
}

/// A parsed syntax tree: a concise and detached version of a derivation.
#[derive(Debug, PartialEq, Eq, Hash)]
pub struct Tree<T> {
    pub(crate) value: T,
    pub(crate) start: usize,
    pub(crate) end: usize,
    pub(crate) subtrees: Vec<Tree<T>>,
}

/// `t` is the tree of `r` flattened by the digests `d`: it has `r`'s range and a clone of its
/// value, and its subtrees are the trees of the flattened antecedents of `r`.
pub open(crate) spec fn tree_fits<T: Clone, M>(t: Tree<T>, r: Reducer<T, M>, d: ValueDigests) -> bool
    decreases t,
{
    &&& t.spec_range().start == r.spec_start()
    &&& t.spec_range().end == r.spec_end()
    &&& cloned(r.spec_value(), t.spec_value())
    &&& trees_fit(t.subtrees@, flattened(r, d))
}

/// Each tree of `ts` fits the reducer and digests at the same position of `ps`.
pub open(crate) spec fn trees_fit<T: Clone, M>(ts: Seq<Tree<T>>, ps: Seq<(Reducer<T, M>, ValueDigests)>) -> bool
    decreases ts,
{
    if ts.len() == 0 {
        ps.len() == 0
    } else {
        &&& ps.len() == ts.len()
        &&& trees_fit(ts.drop_last(), ps.drop_last())
        &&& tree_fits(ts.last(), ps.last().0, ps.last().1)
    }
}

/// Fitting sequences of trees can be put one after the other.
proof fn lemma_trees_fit_concat<T: Clone, M>(
    a: Seq<Tree<T>>,
    p: Seq<(Reducer<T, M>, ValueDigests)>,
    b: Seq<Tree<T>>,
    q: Seq<(Reducer<T, M>, ValueDigests)>,
)
    requires
        trees_fit(a, p),
        trees_fit(b, q),
    ensures
        trees_fit(a + b, p + q),
    decreases b.len(),
{
    if b.len() == 0 {
        assert(a + b =~= a);
        assert(p + q =~= p);
    } else {
        lemma_trees_fit_concat(a, p, b.drop_last(), q.drop_last());
        assert((a + b).drop_last() =~= a + b.drop_last());
        assert((p + q).drop_last() =~= p + q.drop_last());
    }
}

/// Fitting sequences of digests and reducers can be put one after the other.
proof fn lemma_digests_fit_prefix<T, M>(ds: Seq<ValueDigests>, rs: Seq<Reducer<T, M>>, i: int)
    requires
        digests_fit_seq(ds, rs),
        0 <= i <= rs.len(),
    ensures
        digests_fit_seq(ds.subrange(0, i), rs.subrange(0, i)),
        ds.len() == rs.len(),
        i < rs.len() ==> digests_fit(ds[i], rs[i]),
    decreases rs.len(),
{
    if rs.len() > 0 {
        if i == rs.len() {
            assert(ds.subrange(0, i) =~= ds);
            assert(rs.subrange(0, i) =~= rs);
        } else {
            lemma_digests_fit_prefix(ds.drop_last(), rs.drop_last(), i);
            assert(ds.drop_last().subrange(0, i) =~= ds.subrange(0, i));
            assert(rs.drop_last().subrange(0, i) =~= rs.subrange(0, i));
            if i < rs.len() - 1 {
                assert(ds.drop_last()[i] == ds[i]);
                assert(rs.drop_last()[i] == rs[i]);
            }
        }
    }
}

impl<T> Tree<T> {
    /// The syntactic category this tree stands for.
    pub open(crate) spec fn spec_value(self) -> T {
        self.value
    }

    /// The range of input words this tree covers.
    pub open(crate) spec fn spec_range(self) -> Range<usize> {
        Range { start: self.start, end: self.end }
    }

    /// The subtrees.
    pub open(crate) spec fn spec_subtrees(self) -> Seq<Tree<T>> {
        self.subtrees@
    }

    /// Whether this tree has no subtrees.
    pub fn is_leaf(&self) -> (r: bool)
        ensures
            r == (self.spec_subtrees().len() == 0),
    {
        self.subtrees.len() == 0
    }

    /// Whether this tree has subtrees.
    pub fn is_branch(&self) -> (r: bool)
        ensures
            r == (self.spec_subtrees().len() != 0),
    {
        self.subtrees.len() != 0
    }

    /// Returns a reference to the syntactic category this tree stands for.
    pub fn value(&self) -> (r: &T)
        ensures
            *r == self.spec_value(),
    {
        &self.value
    }

    /// Returns the range over the input words that this tree covers.
    pub fn range(&self) -> (r: Range<usize>)
        ensures
            r == self.spec_range(),
    {
        Range { start: self.start, end: self.end }
    }

    /// Returns a slice of the subtrees of this tree.
    pub fn subtrees(&self) -> (r: &[Tree<T>])
        ensures
            r@ == self.spec_subtrees(),
    {
        self.subtrees.as_slice()
    }

    /// Builds a tree from its value, its range and its subtrees, as a tree read back from its
    /// serialized form is built.
    pub fn from_parts(value: T, range: Range<usize>, subtrees: Vec<Tree<T>>) -> (r: Self)
        ensures
            r.spec_value() == value,
            r.spec_range() == range,
            r.spec_subtrees() == subtrees@,
    {
        Tree { value, start: range.start, end: range.end, subtrees }
    }
}

impl<T: Clone> Tree<T> {
    /// The tree of a reducer, flattened by the given digests: each antecedent whose value has
    /// the digest of the value it is an antecedent of is replaced by its own antecedents, so that
    /// recursive occurrences of one symbol make one node.
    pub fn from_reducer_with<M>(reducer: &Reducer<T, M>, digests: &ValueDigests) -> (t: Self)
        requires
            reducer.wf(),
            digests_fit(*digests, *reducer),
        ensures
            tree_fits(t, *reducer, *digests),
        decreases reducer, 1int,
    {
        let subtrees = Self::flattened_trees(reducer, digests, digests.digest);
        let value = reducer.value().clone();
        let t = Tree { value, start: reducer.start(), end: reducer.end(), subtrees };
        t
    }

    /// The trees of the flattened antecedents of the reducer, against `key`.
    fn flattened_trees<M>(reducer: &Reducer<T, M>, digests: &ValueDigests, key: u64) -> (v: Vec<Self>)
        requires
            reducer.wf(),
            digests_fit(*digests, *reducer),
        ensures
            trees_fit(v@, flattened_against(*reducer, *digests, key)),
        decreases reducer, 0int,
    {
        let mut v: Vec<Self> = Vec::new();
        match reducer {
            Reducer::Input(_) => {},
            Reducer::Conclusion(c) => {
                let ants = c.antecedents();
                proof {
                    lemma_reducers_wf(c.0.antecedents@);
                }
                let mut i: usize = 0;
                while i < ants.len()
                    invariant
                        *reducer == Reducer::Conclusion(*c),
                        ants@ == c.0.antecedents@,
                        forall|j: int| 0 <= j < ants@.len() ==> (#[trigger] ants@[j]).wf(),
                        digests_fit_seq(digests.spec_children(), ants@),
                        i <= ants@.len(),
                        trees_fit(
                            v@,
                            flattened_seq(
                                ants@.subrange(0, i as int),
                                digests.spec_children().subrange(0, i as int),
                                key,
                            ),
                        ),
                    decreases ants@.len() - i,
                {
                    proof {
                        assert(decreases_to!(*reducer => (*reducer)->Conclusion_0));
                        assert(decreases_to!((*reducer)->Conclusion_0 => (*reducer)->Conclusion_0.0));
                        assert(decreases_to!((*reducer)->Conclusion_0.0 => (*reducer)->Conclusion_0.0.antecedents));
                        assert(decreases_to!(c.0.antecedents => c.0.antecedents@));
                        assert(decreases_to!(c.0.antecedents@ => c.0.antecedents@[i as int]));
                        lemma_digests_fit_prefix(digests.spec_children(), ants@, i as int);
                        lemma_digests_fit_prefix(digests.spec_children(), ants@, i + 1);
                    }
                    let child = &digests.children[i];
                    let ghost rs = ants@.subrange(0, i + 1);
                    let ghost ds = digests.spec_children().subrange(0, i + 1);
                    proof {
                        assert(rs.drop_last() =~= ants@.subrange(0, i as int));
                        assert(ds.drop_last() =~= digests.spec_children().subrange(0, i as int));
                        assert(rs.last() == ants@[i as int]);
                        assert(ds.last() == digests.spec_children()[i as int]);
                    }
                    let ghost before = v@;
                    if child.digest == key {
                        let mut more = Self::flattened_trees(&ants[i], child, key);
                        let ghost more_view = more@;
                        v.append(&mut more);
                        proof {
                            let piece = flattened(ants@[i as int], *child);
                            assert(flattened_against(ants@[i as int], *child, key) == piece);
                            lemma_trees_fit_concat(before, flattened_seq(ants@.subrange(0, i as int), digests.spec_children().subrange(0, i as int), key), more_view, piece);
                            assert(before + more_view =~= v@);
                        }
                    } else {
                        let tree = Self::from_reducer_with(&ants[i], child);
                        v.push(tree);
                        proof {
                            let piece = seq![(ants@[i as int], *child)];
                            assert(trees_fit(seq![tree], piece)) by {
                                assert(seq![tree].drop_last() =~= Seq::<Tree<T>>::empty());
                                assert(piece.drop_last() =~= Seq::<(Reducer<T, M>, ValueDigests)>::empty());
                                assert(trees_fit(Seq::<Tree<T>>::empty(), Seq::<(Reducer<T, M>, ValueDigests)>::empty()));
                                assert(seq![tree].last() == tree);
                                assert(piece.last() == (ants@[i as int], *child));
                                assert(tree_fits(tree, ants@[i as int], *child));
                            }
                            lemma_trees_fit_concat(before, flattened_seq(ants@.subrange(0, i as int), digests.spec_children().subrange(0, i as int), key), seq![tree], piece);
                            assert(before + seq![tree] =~= v@);
                        }
                    }
                    i = i + 1;
                }
                assert(ants@.subrange(0, i as int) =~= ants@);
                proof {
                    lemma_digests_fit_prefix(digests.spec_children(), ants@, i as int);
                    assert(digests.spec_children().subrange(0, i as int) =~= digests.spec_children());
                }
            },
        }
        v
    }
}

/// `b` is a copy of `a`: the same ranges and shape, with each value cloned.
pub open(crate) spec fn tree_cloned<T: Clone>(a: Tree<T>, b: Tree<T>) -> bool
    decreases a,
{
    &&& b.start == a.start
    &&& b.end == a.end
    &&& cloned(a.value, b.value)
    &&& b.subtrees@.len() == a.subtrees@.len()
    &&& forall|i: int|
        0 <= i < a.subtrees@.len() ==> tree_cloned(#[trigger] a.subtrees@[i], b.subtrees@[i])
}

/// A copy of the tree, with each value cloned.
fn clone_tree<T: Clone>(t: &Tree<T>) -> (r: Tree<T>)
    ensures
        tree_cloned(*t, r),
    decreases t,
{
    let mut subtrees: Vec<Tree<T>> = Vec::new();
    let mut i: usize = 0;
    while i < t.subtrees.len()
        invariant
            i <= t.subtrees@.len(),
            subtrees@.len() == i,
            forall|j: int| 0 <= j < i ==> tree_cloned(#[trigger] t.subtrees@[j], subtrees@[j]),
        decreases t.subtrees@.len() - i,
    {
        proof {
            assert(decreases_to!(*t => t.subtrees));
            assert(decreases_to!(t.subtrees => t.subtrees@));
            assert(decreases_to!(t.subtrees@ => t.subtrees@[i as int]));
        }
        subtrees.push(clone_tree(&t.subtrees[i]));
        i = i + 1;
    }
    let r = Tree { value: t.value.clone(), start: t.start, end: t.end, subtrees };
    proof {
        assert(decreases_to!(*t => t.subtrees));
        assert(decreases_to!(t.subtrees => t.subtrees@));
    }
    r
}

impl<T: Clone> Clone for Tree<T> {
    /// A copy of the tree: the same ranges and shape, with each value cloned.
    fn clone(&self) -> (r: Self)
        ensures
            tree_cloned(*self, r),
    {
        clone_tree(self)
    }
}

/// `t` is the tree of `r` flattened by some digests that fit `r`.
pub open(crate) spec fn is_tree_of<T: Clone, M>(t: Tree<T>, r: Reducer<T, M>) -> bool {
    exists|d: ValueDigests| digests_fit(d, r) && tree_fits(t, r, d)
}

impl<T: Clone + Hash> Tree<T> {
    /// The tree of a reducer: its value, its range, and the trees of its antecedents, where
    /// each antecedent whose value has the same digest as the value it is an antecedent of is
    /// replaced by its own antecedents. The digests come from the values' `Hash` impl.
    pub fn from_reducer<M>(reducer: &Reducer<T, M>) -> (t: Self)
        requires
            reducer.wf(),
        ensures
            is_tree_of(t, *reducer),
    {
        let digests = ValueDigests::of(reducer);
        Self::from_reducer_with(reducer, &digests)
    }
}

/// One line of a tree's text: what precedes the node's label, the node's range, and its value.
pub type TreeLine<T> = (Seq<char>, usize, usize, T);

/// The branch drawn before a child: the last child closes the branch.
pub open spec fn branch(last: bool) -> Seq<char> {
    if last {
        seq!['└', '─']
    } else {
        seq!['├', '─']
    }
}

/// What the lines below a child carry on for it: a bar while siblings follow.
pub open spec fn indent(last: bool) -> Seq<char> {
    if last {
        seq![' ', ' ']
    } else {
        seq!['│', ' ']
    }
}

/// The lines of a tree, parents before children and siblings in order: the node's own line
/// starts with `lead`, and the lines of its children carry `pre` before their branches.
pub open(crate) spec fn tree_lines<T>(t: Tree<T>, lead: Seq<char>, pre: Seq<char>) -> Seq<TreeLine<T>>
    decreases t, 0int,
{
    proof {
        assert(decreases_to!(t => t.subtrees));
        assert(decreases_to!(t.subtrees => t.subtrees@));
    }
    seq![(lead, t.start, t.end, t.value)] + child_lines(t.subtrees@, 0, pre)
}

/// The lines of the children of a node from the `i`-th on: each starts on a new line with the
/// node's `pre` and a branch, and its own children carry the `pre` on with an indent.
pub open(crate) spec fn child_lines<T>(ts: Seq<Tree<T>>, i: int, pre: Seq<char>) -> Seq<TreeLine<T>>
    decreases ts, ts.len() - i,
{
    if i < 0 || i >= ts.len() {
        Seq::empty()
    } else {
        let last = i == ts.len() - 1;
        tree_lines(ts[i], seq!['\n'] + pre + branch(last), pre + indent(last)) + child_lines(
            ts,
            i + 1,
            pre,
        )
    }
}

/// The text of one line, with the node's label: the lead, the label, `@`, and the range as
/// `start..end`.
pub open spec fn line_text<T>(line: TreeLine<T>, label: Seq<char>) -> Seq<char> {
    line.0 + label + seq!['@'] + decimal(line.1 as nat) + seq!['.', '.'] + decimal(line.2 as nat)
}

/// The text of the lines, the `i`-th with the `i`-th label.
pub open spec fn lines_text<T>(lines: Seq<TreeLine<T>>, labels: Seq<String>) -> Seq<char>
    decreases lines.len(),
{
    if lines.len() == 0 {
        Seq::empty()
    } else {
        lines_text(lines.drop_last(), labels) + line_text(
            lines.last(),
            labels[lines.len() - 1]@,
        )
    }
}

/// The text of two runs of lines is the text of the first followed by that of the second, with
/// the labels after the first run's.
proof fn lemma_lines_text_concat<T>(a: Seq<TreeLine<T>>, b: Seq<TreeLine<T>>, labels: Seq<String>)
    requires
        labels.len() >= a.len() + b.len(),
    ensures
        lines_text(a + b, labels) == lines_text(a, labels) + lines_text(
            b,
            labels.subrange(a.len() as int, labels.len() as int),
        ),
    decreases b.len(),
{
    if b.len() == 0 {
        assert(a + b =~= a);
        assert(lines_text(a, labels) + Seq::<char>::empty() =~= lines_text(a, labels));
    } else {
        lemma_lines_text_concat(a, b.drop_last(), labels);
        assert((a + b).drop_last() =~= a + b.drop_last());
        assert((a + b).last() == b.last());
    }
}

/// The text of lines reads only the labels at their positions.
proof fn lemma_lines_text_prefix<T>(lines: Seq<TreeLine<T>>, labels: Seq<String>, n: int)
    requires
        lines.len() <= n <= labels.len(),
    ensures
        lines_text(lines, labels) == lines_text(lines, labels.subrange(0, n)),
    decreases lines.len(),
{
    if lines.len() > 0 {
        lemma_lines_text_prefix(lines.drop_last(), labels, n);
    }
}

impl<T> Tree<T> {
    /// Appends the text of this tree's lines (its own line starting with `lead`, its children's
    /// carrying `pre`) with the labels from `next` on, and returns the position after them.
    fn push_text(&self, s: &mut String, lead: &String, pre: &String, labels: &Vec<String>, next: usize) -> (after: usize)
        requires
            next + tree_lines(*self, lead@, pre@).len() <= labels@.len(),
        ensures
            after == next + tree_lines(*self, lead@, pre@).len(),
            final(s)@ == old(s)@ + lines_text(tree_lines(*self, lead@, pre@), labels@.subrange(next as int, after as int)),
        decreases self,
    {
        let ghost lines = tree_lines(*self, lead@, pre@);
        let ghost end = next + lines.len();
        let ghost target = old(s)@ + lines_text(lines, labels@.subrange(next as int, end));
        let ghost ts = self.subtrees@;
        proof {
            let first = seq![(lead@, self.start, self.end, self.value)];
            assert(lines == first + child_lines(ts, 0, pre@));
            lemma_lines_text_concat(first, child_lines(ts, 0, pre@), labels@.subrange(next as int, end));
            assert(first.drop_last() =~= Seq::<TreeLine<T>>::empty());
            assert(lines_text(Seq::<TreeLine<T>>::empty(), labels@.subrange(next as int, end)) == Seq::<char>::empty());
            assert(lines_text(first, labels@.subrange(next as int, end)) =~= line_text(
                (lead@, self.start, self.end, self.value),
                labels@[next as int]@,
            ));
            assert(labels@.subrange(next as int, end).subrange(1, end - next) =~= labels@.subrange(next + 1, end));
            assert(lines.len() >= 1);
        }
        s.append(lead.as_str());
        s.append(labels[next].as_str());
        s.push('@');
        push_decimal(s, self.start);
        s.push('.');
        s.push('.');
        push_decimal(s, self.end);
        proof {
            assert(s@ =~= old(s)@ + line_text((lead@, self.start, self.end, self.value), labels@[next as int]@));
        }
        let count = labels.len();
        assert(next + 1 <= count);
        let mut at: usize = next + 1;
        let mut j: usize = 0;
        while j < self.subtrees.len()
            invariant
                ts == self.subtrees@,
                j <= ts.len(),
                end <= labels@.len(),
                at + child_lines(ts, j as int, pre@).len() == end,
                s@ + lines_text(child_lines(ts, j as int, pre@), labels@.subrange(at as int, end)) == target,
            decreases ts.len() - j,
        {
            proof {
                assert(decreases_to!(*self => self.subtrees));
                assert(decreases_to!(self.subtrees => self.subtrees@));
                assert(decreases_to!(self.subtrees@ => self.subtrees@[j as int]));
            }
            let last = j + 1 == self.subtrees.len();
            let mut child_lead = String::new();
            child_lead.push('\n');
            child_lead.append(pre.as_str());
            let mut child_pre = pre.clone();
            if last {
                child_lead.push('└');
                child_lead.push('─');
                child_pre.push(' ');
                child_pre.push(' ');
            } else {
                child_lead.push('├');
                child_lead.push('─');
                child_pre.push('│');
                child_pre.push(' ');
            }
            let ghost here = tree_lines(ts[j as int], child_lead@, child_pre@);
            let ghost rest = child_lines(ts, j + 1, pre@);
            proof {
                assert(child_lead@ =~= seq!['\n'] + pre@ + branch(last));
                assert(child_pre@ =~= pre@ + indent(last));
                assert(child_lines(ts, j as int, pre@) == here + rest);
                lemma_lines_text_concat(here, rest, labels@.subrange(at as int, end));
                lemma_lines_text_prefix(here, labels@.subrange(at as int, end), here.len() as int);
                assert(labels@.subrange(at as int, end).subrange(0, here.len() as int) =~= labels@.subrange(at as int, at + here.len()));
                assert(labels@.subrange(at as int, end).subrange(here.len() as int, end - at) =~= labels@.subrange(at + here.len(), end));
            }
            at = self.subtrees[j].push_text(s, &child_lead, &child_pre, labels, at);
            j = j + 1;
        }
        proof {
            assert(child_lines(ts, j as int, pre@) =~= Seq::<TreeLine<T>>::empty());
            assert(s@ =~= target);
        }
        at
    }

    /// The text of the tree, one line per node, parents before children and siblings in order,
    /// each with the label at its position: the label, `@` and the range covered; the line of a
    /// child starts below its parent's with `├─`, or `└─` for the last child, after a bar `│`
    /// for each ancestor that has siblings left to come.
    pub fn text_with(&self, labels: &Vec<String>) -> (r: String)
        requires
            labels@.len() == tree_lines(*self, Seq::empty(), Seq::empty()).len(),
        ensures
            r@ == lines_text(tree_lines(*self, Seq::empty(), Seq::empty()), labels@),
    {
        let mut s = String::new();
        let lead = String::new();
        let pre = String::new();
        let _ = self.push_text(&mut s, &lead, &pre, labels, 0);
        assert(labels@.subrange(0, labels@.len() as int) =~= labels@);
        assert(s@ =~= lines_text(tree_lines(*self, Seq::empty(), Seq::empty()), labels@));
        s
    }
}

impl<T> Tree<T> {
    /// Appends references to the values of this tree's lines, in order.
    fn push_values<'a>(&'a self, out: &mut Vec<&'a T>, Ghost(lead): Ghost<Seq<char>>, Ghost(pre): Ghost<Seq<char>>)
        ensures
            final(out)@.len() == old(out)@.len() + tree_lines(*self, lead, pre).len(),
            forall|i: int| 0 <= i < old(out)@.len() ==> final(out)@[i] == old(out)@[i],
            forall|i: int|
                0 <= i < tree_lines(*self, lead, pre).len() ==> *final(out)@[old(out)@.len() + i]
                    == tree_lines(*self, lead, pre)[i].3,
        decreases self,
    {
        let ghost lines = tree_lines(*self, lead, pre);
        let ghost ts = self.subtrees@;
        let ghost base = old(out)@.len();
        out.push(&self.value);
        proof {
            assert(lines == seq![(lead, self.start, self.end, self.value)] + child_lines(ts, 0, pre));
        }
        let mut j: usize = 0;
        while j < self.subtrees.len()
            invariant
                ts == self.subtrees@,
                j <= ts.len(),
                base == old(out)@.len(),
                base <= out@.len(),
                lines == seq![(lead, self.start, self.end, self.value)] + child_lines(ts, 0, pre),
                forall|i: int| 0 <= i < base ==> out@[i] == old(out)@[i],
                out@.len() + child_lines(ts, j as int, pre).len() == base + lines.len(),
                forall|i: int|
                    0 <= i < out@.len() - base ==> *out@[base + i] == lines[i].3,
                forall|i: int|
                    0 <= i < child_lines(ts, j as int, pre).len() ==> lines[out@.len() - base + i]
                        == child_lines(ts, j as int, pre)[i],
            decreases ts.len() - j,
        {
            proof {
                assert(decreases_to!(*self => self.subtrees));
                assert(decreases_to!(self.subtrees => self.subtrees@));
                assert(decreases_to!(self.subtrees@ => self.subtrees@[j as int]));
            }
            let last = j + 1 == self.subtrees.len();
            let ghost child_lead = seq!['\n'] + pre + branch(last);
            let ghost child_pre = pre + indent(last);
            let ghost here = tree_lines(ts[j as int], child_lead, child_pre);
            let ghost rest = child_lines(ts, j + 1, pre);
            let ghost before = out@;
            proof {
                assert(child_lines(ts, j as int, pre) == here + rest);
            }
            self.subtrees[j].push_values(out, Ghost(child_lead), Ghost(child_pre));
            proof {
                assert forall|i: int| 0 <= i < base implies out@[i] == old(out)@[i] by {
                    assert(out@[i] == before[i]);
                }
                assert forall|i: int| 0 <= i < out@.len() - base implies *out@[base + i] == lines[i].3 by {
                    if i >= before.len() - base {
                        let k = i - (before.len() - base);
                        assert((here + rest)[k] == here[k]);
                    }
                }
                assert forall|i: int| 0 <= i < rest.len() implies lines[out@.len() - base + i] == rest[i] by {
                    assert((here + rest)[here.len() + i] == rest[i]);
                }
            }
            j = j + 1;
        }
        proof {
            assert(child_lines(ts, j as int, pre) =~= Seq::<TreeLine<T>>::empty());
        }
    }

    /// References to the values of the tree's nodes, in the order of its text's lines: parents
    /// before children, siblings in order.
    pub fn values_in_order(&self) -> (r: Vec<&T>)
        ensures
            r@.len() == tree_lines(*self, Seq::empty(), Seq::empty()).len(),
            forall|i: int|
                0 <= i < r@.len() ==> *r@[i] == tree_lines(*self, Seq::empty(), Seq::empty())[i].3,
    {
        let mut out: Vec<&T> = Vec::new();
        self.push_values(&mut out, Ghost(Seq::empty()), Ghost(Seq::empty()));
        out
    }
}

/// The reducers of `ps` lie within the inputs from `lo` to `hi`, each covering some, in order
/// and without overlapping.
pub open spec fn ordered_within<T, M>(ps: Seq<(Reducer<T, M>, ValueDigests)>, lo: int, hi: int) -> bool {
    &&& forall|i: int|
        0 <= i < ps.len() ==> lo <= (#[trigger] ps[i]).0.spec_start() < ps[i].0.spec_end() <= hi
    &&& forall|i: int|
        0 <= i < ps.len() - 1 ==> (#[trigger] ps[i]).0.spec_end() <= ps[i + 1].0.spec_start()
}

/// Runs lying in order within two adjacent stretches lie in order within both together.
proof fn lemma_ordered_concat<T, M>(
    a: Seq<(Reducer<T, M>, ValueDigests)>,
    b: Seq<(Reducer<T, M>, ValueDigests)>,
    lo: int,
    mid: int,
    hi: int,
)
    requires
        ordered_within(a, lo, mid),
        ordered_within(b, mid, hi),
        lo <= mid <= hi,
    ensures
        ordered_within(a + b, lo, hi),
{
    let ab = a + b;
    assert forall|i: int| 0 <= i < ab.len() implies lo <= (#[trigger] ab[i]).0.spec_start()
        < ab[i].0.spec_end() <= hi by {
        if i < a.len() {
            assert(ab[i] == a[i]);
        } else {
            assert(ab[i] == b[i - a.len()]);
        }
    }
    assert forall|i: int| 0 <= i < ab.len() - 1 implies (#[trigger] ab[i]).0.spec_end()
        <= ab[i + 1].0.spec_start() by {
        if i < a.len() - 1 {
            assert(ab[i] == a[i]);
            assert(ab[i + 1] == a[i + 1]);
        } else if i == a.len() - 1 {
            assert(ab[i] == a[i]);
            assert(ab[i + 1] == b[0]);
        } else {
            assert(ab[i] == b[i - a.len()]);
            assert(ab[i + 1] == b[i + 1 - a.len()]);
        }
    }
}

/// Where the digests are those of the values under a digest function `g`, a reducer's children
/// in its syntax tree are exactly what flattening by value gives: none of them has a value with
/// the digest of the reducer's own value, and each comes with the digests of its own values.
pub proof fn law_flattened_children_differ_in_value<T, M>(r: Reducer<T, M>, d: ValueDigests, g: spec_fn(T) -> u64)
    requires
        digests_fit(d, r),
        digests_under(d, r, g),
    ensures
        forall|k: int|
            0 <= k < flattened(r, d).len() ==> g((#[trigger] flattened(r, d)[k]).0.spec_value()) != g(
                r.spec_value(),
            ) && digests_under(flattened(r, d)[k].1, flattened(r, d)[k].0, g),
    decreases r,
{
    match r {
        Reducer::Input(_) => {
            assert(flattened(r, d).len() == 0);
        },
        Reducer::Conclusion(c) => {
            lemma_flattened_seq_by_value(c.spec_antecedents(), d.spec_children(), d.spec_digest(), g);
            assert(d.spec_digest() == g(r.spec_value()));
            let fs = flattened_seq(c.spec_antecedents(), d.spec_children(), d.spec_digest());
            assert(flattened(r, d) == fs);
            assert forall|k: int| 0 <= k < flattened(r, d).len() implies g(
                (#[trigger] flattened(r, d)[k]).0.spec_value(),
            ) != g(r.spec_value()) && digests_under(flattened(r, d)[k].1, flattened(r, d)[k].0, g) by {
                assert(flattened(r, d)[k] == fs[k]);
            }
        },
    }
}

/// Flattening antecedents whose digests are those of their values under `g`, against the key
/// `key`, leaves only antecedents whose value does not have that digest.
proof fn lemma_flattened_seq_by_value<T, M>(
    rs: Seq<Reducer<T, M>>,
    ds: Seq<ValueDigests>,
    key: u64,
    g: spec_fn(T) -> u64,
)
    requires
        digests_fit_seq(ds, rs),
        digests_under_seq(ds, rs, g),
    ensures
        forall|k: int|
            0 <= k < flattened_seq(rs, ds, key).len() ==> g(
                (#[trigger] flattened_seq(rs, ds, key)[k]).0.spec_value(),
            ) != key && digests_under(flattened_seq(rs, ds, key)[k].1, flattened_seq(rs, ds, key)[k].0, g),
    decreases rs,
{
    if rs.len() >= 1 {
        let last = rs.last();
        let dl = ds.last();
        lemma_flattened_seq_by_value(rs.drop_last(), ds.drop_last(), key, g);
        let front = flattened_seq(rs.drop_last(), ds.drop_last(), key);
        let piece = if dl.spec_digest() == key {
            flattened(last, dl)
        } else {
            seq![(last, dl)]
        };
        if dl.spec_digest() == key {
            law_flattened_children_differ_in_value(last, dl, g);
            assert(g(last.spec_value()) == key);
        }
        let all = flattened_seq(rs, ds, key);
        assert(all == front + piece);
        assert forall|k: int| 0 <= k < all.len() implies g((#[trigger] all[k]).0.spec_value()) != key
            && digests_under(all[k].1, all[k].0, g) by {
            if k < front.len() {
                assert(all[k] == front[k]);
            } else {
                assert(all[k] == piece[k - front.len()]);
            }
        }
    }
}

/// The flattened antecedents of a well-formed reducer lie in order within its range.
proof fn lemma_flattened_ordered<T, M>(r: Reducer<T, M>, d: ValueDigests)
    requires
        r.wf(),
        digests_fit(d, r),
    ensures
        ordered_within(flattened(r, d), r.spec_start(), r.spec_end()),
    decreases r,
{
    match r {
        Reducer::Input(_) => {},
        Reducer::Conclusion(c) => {
            lemma_reducers_wf(c.0.antecedents@);
            lemma_flattened_seq_ordered(c.spec_antecedents(), d.spec_children(), d.spec_digest());
        },
    }
}

/// The flattening of well-formed antecedents that follow one another lies in order within
/// the inputs they cover together.
proof fn lemma_flattened_seq_ordered<T, M>(rs: Seq<Reducer<T, M>>, ds: Seq<ValueDigests>, key: u64)
    requires
        forall|i: int| 0 <= i < rs.len() ==> (#[trigger] rs[i]).wf(),
        forall|i: int| 0 <= i < rs.len() - 1 ==> (#[trigger] rs[i]).spec_end() == rs[i + 1].spec_start(),
        digests_fit_seq(ds, rs),
    ensures
        rs.len() >= 1 ==> rs[0].spec_start() < rs.last().spec_end(),
        rs.len() >= 1 ==> ordered_within(
            flattened_seq(rs, ds, key),
            rs[0].spec_start(),
            rs.last().spec_end(),
        ),
    decreases rs,
{
    if rs.len() >= 1 {
        let last = rs.last();
        let dl = ds.last();
        lemma_reducer_range(last);
        let piece = if dl.spec_digest() == key {
            flattened(last, dl)
        } else {
            seq![(last, dl)]
        };
        assert(ordered_within(piece, last.spec_start(), last.spec_end())) by {
            if dl.spec_digest() == key {
                lemma_flattened_ordered(last, dl);
            }
        }
        let prefix = rs.drop_last();
        assert forall|i: int| 0 <= i < prefix.len() implies (#[trigger] prefix[i]).wf() by {
            assert(prefix[i] == rs[i]);
        }
        assert forall|i: int| 0 <= i < prefix.len() - 1 implies (#[trigger] prefix[i]).spec_end()
            == prefix[i + 1].spec_start() by {
            assert(prefix[i] == rs[i]);
            assert(prefix[i + 1] == rs[i + 1]);
        }
        lemma_flattened_seq_ordered(prefix, ds.drop_last(), key);
        if prefix.len() == 0 {
            assert(flattened_seq(prefix, ds.drop_last(), key) =~= Seq::<(Reducer<T, M>, ValueDigests)>::empty());
            assert(flattened_seq(rs, ds, key) =~= piece);
            assert(rs[0] == last);
        } else {
            assert(prefix.last() == rs[rs.len() - 2]);
            assert(prefix[0] == rs[0]);
            lemma_ordered_concat(
                flattened_seq(prefix, ds.drop_last(), key),
                piece,
                rs[0].spec_start(),
                last.spec_start(),
                last.spec_end(),
            );
        }
    }
}

/// Fitting trees cover the inputs their reducers cover.
proof fn lemma_trees_fit_ranges<T: Clone, M>(ts: Seq<Tree<T>>, ps: Seq<(Reducer<T, M>, ValueDigests)>)
    requires
        trees_fit(ts, ps),
    ensures
        ts.len() == ps.len(),
        forall|i: int|
            0 <= i < ts.len() ==> (#[trigger] ts[i]).start == ps[i].0.spec_start() && ts[i].end
                == ps[i].0.spec_end(),
    decreases ts.len(),
{
    if ts.len() > 0 {
        lemma_trees_fit_ranges(ts.drop_last(), ps.drop_last());
        assert forall|i: int| 0 <= i < ts.len() implies (#[trigger] ts[i]).start == ps[i].0.spec_start()
            && ts[i].end == ps[i].0.spec_end() by {
            if i < ts.len() - 1 {
                assert(ts[i] == ts.drop_last()[i]);
                assert(ps[i] == ps.drop_last()[i]);
            } else {
                assert(ts[i] == ts.last());
                assert(ps[i] == ps.last());
                assert(tree_fits(ts.last(), ps.last().0, ps.last().1));
            }
        }
    }
}

/// The subtrees of the syntax tree of a reducer lie within the tree's range, each covering
/// some inputs, in order and without overlapping.
pub proof fn law_subtrees_lie_in_order<T: Clone, M>(t: Tree<T>, r: Reducer<T, M>)
    requires
        r.wf(),
        is_tree_of(t, r),
    ensures
        forall|i: int|
            0 <= i < t.spec_subtrees().len() ==> t.spec_range().start <= (
            #[trigger] t.spec_subtrees()[i]).spec_range().start < t.spec_subtrees()[i].spec_range().end
                <= t.spec_range().end,
        forall|i: int|
            0 <= i < t.spec_subtrees().len() - 1 ==> (#[trigger] t.spec_subtrees()[i]).spec_range().end
                <= t.spec_subtrees()[i + 1].spec_range().start,
{
    let d = choose|d: ValueDigests| digests_fit(d, r) && tree_fits(t, r, d);
    lemma_flattened_ordered(r, d);
    lemma_trees_fit_ranges(t.subtrees@, flattened(r, d));
    let ps = flattened(r, d);
    let ts = t.spec_subtrees();
    assert forall|i: int| 0 <= i < ts.len() implies t.spec_range().start <= (
    #[trigger] ts[i]).spec_range().start < ts[i].spec_range().end <= t.spec_range().end by {
        assert(ts[i].start == ps[i].0.spec_start());
    }
    assert forall|i: int| 0 <= i < ts.len() - 1 implies (#[trigger] ts[i]).spec_range().end
        <= ts[i + 1].spec_range().start by {
        assert(ts[i].end == ps[i].0.spec_end());
        assert(ts[i + 1].start == ps[i + 1].0.spec_start());
    }
}

} // verus!
