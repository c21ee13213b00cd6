//! The texts of the parts of a grammar and of the items of a chart, and the chart drawn as a
//! table of them.
//!
//! Items are named by short identities: digests of the addresses of the shared allocations they
//! live in (for a reduction, of those of its parents), which tell apart items that were built
//! apart, however alike they look.
use crate::chart::Chart;
use crate::grammar::{Consequence, Reductum, Rule, Ruleset, Subrule};
use crate::parser::Parser;
use crate::items::{Conclusion, Item, Reducer, Reducible, Reduction};
use crate::text::{hex_text, push_hex};
use std::hash::{Hash, Hasher};
use std::rc::Rc;
use vstd::prelude::*;
use xxhash_rust::xxh3::Xxh3;

verus! {

/// The state of an xxh3 hasher (`xxhash_rust::xxh3::Xxh3`).
#[verifier::external_type_specification]
#[verifier::external_body]
pub struct ExXxh3(Xxh3);

/// A fresh xxh3 hasher (`Xxh3::new`: default seed and secret).
#[verifier::external_body]
fn new_hasher() -> Xxh3 {
    Xxh3::new()
}

/// Feeds the address of a shared allocation to the hasher, as `std::ptr::hash` writes it for
/// `Rc::as_ptr`. The address is the allocator's choice, so nothing is claimed of the state.
#[verifier::external_body]
fn hash_address<X>(hasher: &mut Xxh3, shared: &Rc<X>) {
    std::ptr::hash(Rc::as_ptr(shared), hasher)
}

/// Feeds an index to the hasher, as `Hash` writes it for `usize` (`Xxh3::write_usize`).
#[verifier::external_body]
fn hash_index(hasher: &mut Xxh3, index: usize) {
    index.hash(hasher)
}

/// The digest of what the hasher was fed (`Xxh3::finish`). It rests on addresses, so no property
/// of the result is claimed.
#[verifier::external_body]
fn finish_digest(hasher: &Xxh3) -> u64 {
    hasher.finish()
}

/// The digest of the address of a shared allocation alone.
fn address_digest<X>(shared: &Rc<X>) -> u64 {
    let mut hasher = new_hasher();
    hash_address(&mut hasher, shared);
    finish_digest(&hasher)
}

/// The text standing for a part given without a debug text: `<dynamic:` and its digest.
pub open spec fn dynamic_text(d: u64) -> Seq<char> {
    seq!['<', 'd', 'y', 'n', 'a', 'm', 'i', 'c', ':'] + hex_text(d, None) + seq!['>']
}

/// The text of a subrule: its debug text, or the dynamic text of the digest `d`.
pub open spec fn subrule_text(debug_text: Option<String>, d: u64) -> Seq<char> {
    match debug_text {
        Some(t) => t@,
        None => dynamic_text(d),
    }
}

/// The text of a consequence: `=> ` and its debug text, or the dynamic text of the digest `d`.
pub open spec fn consequence_text(debug_text: Option<String>, d: u64) -> Seq<char> {
    match debug_text {
        Some(t) => seq!['=', '>', ' '] + t@,
        None => dynamic_text(d),
    }
}

/// The text of a reductum, with the digest `d` standing for it if it has no debug text.
pub open spec fn reductum_text<T, M>(r: Reductum<T, M>, d: u64) -> Seq<char> {
    match r {
        Reductum::Subrule(s) => subrule_text(s.spec_debug_text(), d),
        Reductum::Consequence(c) => consequence_text(c.spec_debug_text(), d),
    }
}

/// The text of a ruleset, with the digests `ds` for its subrules: `{ `, each subrule's text
/// followed by `; `, and `}`.
pub open spec fn ruleset_text<T, M>(subrules: Seq<Subrule<T, M>>, ds: Seq<u64>) -> Seq<char> {
    seq!['{', ' '] + subrules_text(subrules, ds) + seq!['}']
}

/// Each subrule's text, with the digest at its position, followed by `; `.
pub open spec fn subrules_text<T, M>(subrules: Seq<Subrule<T, M>>, ds: Seq<u64>) -> Seq<char>
    decreases subrules.len(),
{
    if subrules.len() == 0 {
        Seq::empty()
    } else {
        subrules_text(subrules.drop_last(), ds) + subrule_text(
            subrules.last().spec_debug_text(),
            ds[subrules.len() - 1],
        ) + seq![';', ' ']
    }
}

/// The text of an item that is a reduction with the digest `d`: `Δ`, the digest, `∵`, the
/// digest of the reducible, `⋅` when the reducible is a rule or `:` when it is a reduction, the
/// digest of the reducer, and below, after `└─`, the text of the reductum.
pub open spec fn reduction_item_text(
    d: u64,
    reducible: u64,
    by_rule: bool,
    reducer: u64,
    reductum: Seq<char>,
    precision: Option<usize>,
) -> Seq<char> {
    seq!['Δ'] + hex_text(d, precision) + seq!['∵'] + hex_text(reducible, precision) + (if by_rule {
        seq!['⋅']
    } else {
        seq![':']
    }) + hex_text(reducer, precision) + seq!['\n', '└', '─'] + reductum
}

/// The text of an item that is a reducer with the digest `d`: `ϛ`, the digest, for a
/// conclusion `∵` and the digest of its reduction, and below, after `└─`, the label of its value.
pub open spec fn reducer_item_text(
    d: u64,
    origin: Option<u64>,
    label: Seq<char>,
    precision: Option<usize>,
) -> Seq<char> {
    seq!['ϛ'] + hex_text(d, precision) + match origin {
        Some(o) => seq!['∵'] + hex_text(o, precision),
        None => Seq::empty(),
    } + seq!['\n', '└', '─'] + label
}

/// `text` is the text of the item for some digests of its parts, with `label` for the value of
/// a reducer.
pub open spec fn is_item_text<T, M>(
    item: Item<T, M>,
    label: Seq<char>,
    precision: Option<usize>,
    text: Seq<char>,
) -> bool {
    match item {
        Item::Reduction(x) => exists|d: u64, a: u64, b: u64, e: u64|
            text == #[trigger] reduction_item_text(
                d,
                a,
                x.spec_reducible() is Rule,
                b,
                reductum_text(x.spec_reductum(), e),
                precision,
            ),
        Item::Reducer(Reducer::Input(_)) => exists|d: u64|
            text == #[trigger] reducer_item_text(d, None, label, precision),
        Item::Reducer(Reducer::Conclusion(_)) => exists|d: u64, o: u64|
            text == #[trigger] reducer_item_text(d, Some(o), label, precision),
    }
}

/// The texts, each followed by a line break.
pub open spec fn joined_lines(parts: Seq<Seq<char>>) -> Seq<char>
    decreases parts.len(),
{
    if parts.len() == 0 {
        Seq::empty()
    } else {
        joined_lines(parts.drop_last()) + parts.last() + seq!['\n']
    }
}

/// `text` is the text of a cell of the chart: the texts of its items, at precision four, each
/// followed by a line break.
pub open spec fn is_cell_text<T, M>(items: Seq<Item<T, M>>, labels: Seq<String>, text: Seq<char>) -> bool {
    exists|parts: Seq<Seq<char>>|
        {
            &&& parts.len() == items.len()
            &&& forall|k: int|
                0 <= k < items.len() ==> is_item_text(
                    #[trigger] items[k],
                    labels[k]@,
                    Some(4usize),
                    parts[k],
                )
            &&& text == joined_lines(parts)
        }
}

/// Appends the dynamic text of the digest `d`.
fn push_dynamic(s: &mut String, d: u64)
    ensures
        final(s)@ == old(s)@ + dynamic_text(d),
{
    s.push('<');
    s.push('d');
    s.push('y');
    s.push('n');
    s.push('a');
    s.push('m');
    s.push('i');
    s.push('c');
    s.push(':');
    push_hex(s, d, None);
    s.push('>');
    assert(s@ =~= old(s)@ + dynamic_text(d));
}

impl<T, M> Subrule<T, M> {
    /// The text of the subrule: its debug text, or `<dynamic:` and the digest of its matcher.
    pub fn text(&self) -> (r: String)
        ensures
            exists|d: u64| r@ == subrule_text(self.spec_debug_text(), d),
    {
        let d = address_digest(&self.matcher);
        match &self.debug_text {
            Some(t) => {
                let r = t.clone();
                assert(r@ == subrule_text(self.spec_debug_text(), d));
                r
            },
            None => {
                let mut s = String::new();
                push_dynamic(&mut s, d);
                assert(s@ =~= subrule_text(self.spec_debug_text(), d));
                s
            },
        }
    }
}

impl<T> Consequence<T> {
    /// The text of the consequence: `=> ` and its debug text, or `<dynamic:` and the digest of
    /// its consequents.
    pub fn text(&self) -> (r: String)
        ensures
            exists|d: u64| r@ == consequence_text(self.spec_debug_text(), d),
    {
        let d = address_digest(&self.consequents);
        let mut s = String::new();
        match &self.debug_text {
            Some(t) => {
                s.push('=');
                s.push('>');
                s.push(' ');
                s.append(t.as_str());
            },
            None => push_dynamic(&mut s, d),
        }
        assert(s@ =~= consequence_text(self.spec_debug_text(), d));
        s
    }
}

impl<T, M> Reductum<T, M> {
    /// The text of the subrule or of the consequence.
    pub fn text(&self) -> (r: String)
        ensures
            exists|d: u64| r@ == reductum_text(*self, d),
    {
        match self {
            Reductum::Subrule(s) => {
                let r = s.text();
                proof {
                    let d = choose|d: u64| r@ == subrule_text(s.spec_debug_text(), d);
                    assert(r@ == reductum_text(*self, d));
                }
                r
            },
            Reductum::Consequence(c) => {
                let r = c.text();
                proof {
                    let d = choose|d: u64| r@ == consequence_text(c.spec_debug_text(), d);
                    assert(r@ == reductum_text(*self, d));
                }
                r
            },
        }
    }
}

impl<T, M> Rule<T, M> {
    /// The text of the rule's subrule.
    pub fn text(&self) -> (r: String)
        requires
            self.wf(),
        ensures
            exists|d: u64| r@ == subrule_text(self.spec_subrule().spec_debug_text(), d),
    {
        self.subrule().text()
    }
}

impl<T, M> Ruleset<T, M> {
    /// The text of the ruleset: `{ `, the text of each subrule followed by `; `, and `}`.
    pub fn text(&self) -> (r: String)
        ensures
            exists|ds: Seq<u64>|
                ds.len() == self.spec_subrules().len() && r@ == ruleset_text(
                    self.spec_subrules(),
                    ds,
                ),
    {
        let mut s = String::new();
        s.push('{');
        s.push(' ');
        let ghost subs = self.spec_subrules();
        let ghost mut ds: Seq<u64> = Seq::empty();
        let mut i: usize = 0;
        while i < self.subrules.len()
            invariant
                subs == self.spec_subrules(),
                i <= subs.len(),
                ds.len() == i,
                s@ == seq!['{', ' '] + subrules_text(subs.subrange(0, i as int), ds),
            decreases subs.len() - i,
        {
            let t = self.subrules[i].text();
            let ghost d = choose|d: u64| t@ == subrule_text(subs[i as int].spec_debug_text(), d);
            let ghost before = ds;
            s.append(t.as_str());
            s.push(';');
            s.push(' ');
            proof {
                ds = ds.push(d);
                let p = subs.subrange(0, i + 1);
                assert(p.drop_last() =~= subs.subrange(0, i as int));
                lemma_subrules_text_digests(subs.subrange(0, i as int), before, ds);
                assert(s@ =~= seq!['{', ' '] + subrules_text(p, ds));
            }
            i = i + 1;
        }
        s.push('}');
        proof {
            assert(subs.subrange(0, i as int) =~= subs);
            assert(s@ =~= ruleset_text(subs, ds));
        }
        s
    }
}

impl<T, M> Subrule<T, M> {
    /// How the subrule is written for debugging: `Subrule(`, its text, `)`.
    pub fn debug_string(&self) -> (r: String)
        ensures
            exists|d: u64|
                r@ == seq!['S', 'u', 'b', 'r', 'u', 'l', 'e', '('] + subrule_text(
                    self.spec_debug_text(),
                    d,
                ) + seq![')'],
    {
        let t = self.text();
        let ghost d = choose|d: u64| t@ == subrule_text(self.spec_debug_text(), d);
        let mut s = String::new();
        s.push('S');
        s.push('u');
        s.push('b');
        s.push('r');
        s.push('u');
        s.push('l');
        s.push('e');
        s.push('(');
        s.append(t.as_str());
        s.push(')');
        assert(s@ =~= seq!['S', 'u', 'b', 'r', 'u', 'l', 'e', '('] + subrule_text(self.spec_debug_text(), d) + seq![')']);
        s
    }
}

impl<T> Consequence<T> {
    /// How the consequence is written for debugging: `Consequence(`, its text, `)`.
    pub fn debug_string(&self) -> (r: String)
        ensures
            exists|d: u64|
                r@ == seq!['C', 'o', 'n', 's', 'e', 'q', 'u', 'e', 'n', 'c', 'e', '('] + consequence_text(
                    self.spec_debug_text(),
                    d,
                ) + seq![')'],
    {
        let t = self.text();
        let ghost d = choose|d: u64| t@ == consequence_text(self.spec_debug_text(), d);
        let mut s = String::new();
        s.push('C');
        s.push('o');
        s.push('n');
        s.push('s');
        s.push('e');
        s.push('q');
        s.push('u');
        s.push('e');
        s.push('n');
        s.push('c');
        s.push('e');
        s.push('(');
        s.append(t.as_str());
        s.push(')');
        assert(s@ =~= seq!['C', 'o', 'n', 's', 'e', 'q', 'u', 'e', 'n', 'c', 'e', '('] + consequence_text(self.spec_debug_text(), d) + seq![')']);
        s
    }
}

impl<T, M> Rule<T, M> {
    /// How the rule is written for debugging: `Rule(` and how its subrule is, then `)`.
    pub fn debug_string(&self) -> (r: String)
        requires
            self.wf(),
        ensures
            exists|d: u64|
                r@ == seq!['R', 'u', 'l', 'e', '('] + seq!['S', 'u', 'b', 'r', 'u', 'l', 'e', '(']
                    + subrule_text(self.spec_subrule().spec_debug_text(), d) + seq![')', ')'],
    {
        let t = self.subrule().debug_string();
        let ghost d = choose|d: u64|
            t@ == seq!['S', 'u', 'b', 'r', 'u', 'l', 'e', '('] + subrule_text(
                self.spec_subrule().spec_debug_text(),
                d,
            ) + seq![')'];
        let mut s = String::new();
        s.push('R');
        s.push('u');
        s.push('l');
        s.push('e');
        s.push('(');
        s.append(t.as_str());
        s.push(')');
        assert(s@ =~= seq!['R', 'u', 'l', 'e', '('] + seq!['S', 'u', 'b', 'r', 'u', 'l', 'e', '(']
            + subrule_text(self.spec_subrule().spec_debug_text(), d) + seq![')', ')']);
        s
    }
}

impl<T, M> Ruleset<T, M> {
    /// How the ruleset is written for debugging: `Ruleset ` and its text.
    pub fn debug_string(&self) -> (r: String)
        ensures
            exists|ds: Seq<u64>|
                ds.len() == self.spec_subrules().len() && r@ == seq!['R', 'u', 'l', 'e', 's', 'e', 't', ' ']
                    + ruleset_text(self.spec_subrules(), ds),
    {
        let t = self.text();
        let ghost ds = choose|ds: Seq<u64>|
            ds.len() == self.spec_subrules().len() && t@ == ruleset_text(self.spec_subrules(), ds);
        let mut s = String::new();
        s.push('R');
        s.push('u');
        s.push('l');
        s.push('e');
        s.push('s');
        s.push('e');
        s.push('t');
        s.push(' ');
        s.append(t.as_str());
        assert(s@ =~= seq!['R', 'u', 'l', 'e', 's', 'e', 't', ' '] + ruleset_text(self.spec_subrules(), ds));
        s
    }
}

/// The texts of subrules read only the digests at their positions.
proof fn lemma_subrules_text_digests<T, M>(subrules: Seq<Subrule<T, M>>, ds: Seq<u64>, es: Seq<u64>)
    requires
        subrules.len() <= ds.len(),
        subrules.len() <= es.len(),
        forall|i: int| 0 <= i < subrules.len() ==> ds[i] == es[i],
    ensures
        subrules_text(subrules, ds) == subrules_text(subrules, es),
    decreases subrules.len(),
{
    if subrules.len() > 0 {
        lemma_subrules_text_digests(subrules.drop_last(), ds, es);
    }
}

impl<T, M> Reducer<T, M> {
    /// Feeds the reducer to the hasher: the address of its input or conclusion.
    fn hash_into(&self, hasher: &mut Xxh3) {
        match self {
            Reducer::Input(i) => hash_address(hasher, &i.0),
            Reducer::Conclusion(c) => hash_address(hasher, &c.0),
        }
    }

    /// The digest that names this reducer.
    fn digest(&self) -> u64 {
        let mut hasher = new_hasher();
        self.hash_into(&mut hasher);
        finish_digest(&hasher)
    }

    /// The text of the reducer: its digest, cut to the precision when one is given.
    pub fn text(&self, precision: Option<usize>) -> (r: String)
        ensures
            exists|d: u64| r@ == hex_text(d, precision),
    {
        let d = self.digest();
        let mut s = String::new();
        push_hex(&mut s, d, precision);
        assert(s@ =~= hex_text(d, precision));
        s
    }
}

impl<T, M> Reduction<T, M> {
    /// Feeds the reduction to the hasher: its reducible, then its reducer.
    fn hash_into(&self, hasher: &mut Xxh3)
        decreases self,
    {
        self.0.reducible.hash_into(hasher);
        self.0.reducer.hash_into(hasher);
    }

    /// The digest that names this reduction: that of its reducible followed by its reducer, so
    /// that reductions of the same parents share it.
    fn digest(&self) -> u64 {
        let mut hasher = new_hasher();
        self.hash_into(&mut hasher);
        finish_digest(&hasher)
    }

    /// The text of the reduction: its digest, cut to the precision when one is given.
    pub fn text(&self, precision: Option<usize>) -> (r: String)
        ensures
            exists|d: u64| r@ == hex_text(d, precision),
    {
        let d = self.digest();
        let mut s = String::new();
        push_hex(&mut s, d, precision);
        assert(s@ =~= hex_text(d, precision));
        s
    }
}

impl<T, M> Reducible<T, M> {
    /// Feeds the reducible to the hasher: the address of its ruleset and its position for a
    /// rule, the reduction otherwise.
    fn hash_into(&self, hasher: &mut Xxh3)
        decreases self,
    {
        match self {
            Reducible::Rule(rule) => {
                hash_address(hasher, &rule.container.subrules);
                hash_index(hasher, rule.index);
            },
            Reducible::Reduction(reduction) => reduction.hash_into(hasher),
        }
    }

    /// The digest that names this reducible.
    fn digest(&self) -> u64 {
        let mut hasher = new_hasher();
        self.hash_into(&mut hasher);
        finish_digest(&hasher)
    }

    /// The text of the reducible: its digest, cut to the precision when one is given.
    pub fn text(&self, precision: Option<usize>) -> (r: String)
        ensures
            exists|d: u64| r@ == hex_text(d, precision),
    {
        let d = self.digest();
        let mut s = String::new();
        push_hex(&mut s, d, precision);
        assert(s@ =~= hex_text(d, precision));
        s
    }
}

impl<T, M> Conclusion<T, M> {
    /// The text of the conclusion, with the label of its value: the label, then in round
    /// brackets the digest of its reduction, cut to the precision when one is given.
    pub fn text(&self, label: &str, precision: Option<usize>) -> (r: String)
        ensures
            exists|d: u64| r@ == label@ + seq!['('] + hex_text(d, precision) + seq![')'],
    {
        let d = self.0.reduction.digest();
        let mut s = String::new();
        s.append(label);
        s.push('(');
        push_hex(&mut s, d, precision);
        s.push(')');
        assert(s@ =~= label@ + seq!['('] + hex_text(d, precision) + seq![')']);
        s
    }
}

/// The text of a reduction item from its digests and the text of its reductum; see
/// [`Item::text`].
pub fn reduction_item_line(
    d: u64,
    reducible: u64,
    by_rule: bool,
    reducer: u64,
    reductum: &str,
    precision: Option<usize>,
) -> (r: String)
    ensures
        r@ == reduction_item_text(d, reducible, by_rule, reducer, reductum@, precision),
{
    let mut s = String::new();
    s.push('Δ');
    push_hex(&mut s, d, precision);
    s.push('∵');
    push_hex(&mut s, reducible, precision);
    if by_rule {
        s.push('⋅');
    } else {
        s.push(':');
    }
    push_hex(&mut s, reducer, precision);
    s.push('\n');
    s.push('└');
    s.push('─');
    s.append(reductum);
    assert(s@ =~= reduction_item_text(d, reducible, by_rule, reducer, reductum@, precision));
    s
}

/// The text of a reducer item from its digest, that of its reduction for a conclusion, and the
/// label of its value; see [`Item::text`].
pub fn reducer_item_line(d: u64, origin: Option<u64>, label: &str, precision: Option<usize>) -> (r:
    String)
    ensures
        r@ == reducer_item_text(d, origin, label@, precision),
{
    let mut s = String::new();
    s.push('ϛ');
    push_hex(&mut s, d, precision);
    match origin {
        Some(o) => {
            s.push('∵');
            push_hex(&mut s, o, precision);
        },
        None => {},
    }
    s.push('\n');
    s.push('└');
    s.push('─');
    s.append(label);
    assert(s@ =~= reducer_item_text(d, origin, label@, precision));
    s
}

impl<T, M> Item<T, M> {
    /// The text of the item, in two lines: for a reduction, `Δ` and its digest, `∵` and the
    /// digests of its reducible and reducer (joined by `⋅` if the reducible is a rule, `:` if it
    /// is a reduction), then `└─` and the text of its reductum; for a reducer, `ϛ` and its
    /// digest (for a conclusion, `∵` and the digest of its reduction), then `└─` and the label
    /// of its value. Digests are cut to the precision when one is given.
    pub fn text(&self, label: &str, precision: Option<usize>) -> (r: String)
        requires
            precision matches Some(p) ==> p <= 16,
        ensures
            is_item_text(*self, label@, precision, r@),
    {
        let reduction_digest = |x: &Reduction<T, M>| -> (d: u64) { x.digest() };
        let reducible_digest = |x: &Reducible<T, M>| -> (d: u64) { x.digest() };
        let reducer_digest = |x: &Reducer<T, M>| -> (d: u64) { x.digest() };
        let r = self.text_by(label, precision, &reduction_digest, &reducible_digest, &reducer_digest);
        proof {
            match self {
                Item::Reduction(x) => {
                    let x = *x;
                    let (d, a, b, e) = choose|d: u64, a: u64, b: u64, e: u64|
                        reduction_digest.ensures((&x,), d) && reducible_digest.ensures((&x.spec_reducible(),), a)
                            && reducer_digest.ensures((&x.spec_reducer(),), b) && r@ == #[trigger] reduction_item_text(
                            d,
                            a,
                            x.spec_reducible() is Rule,
                            b,
                            reductum_text(x.spec_reductum(), e),
                            precision,
                        );
                    assert(r@ == reduction_item_text(d, a, x.spec_reducible() is Rule, b, reductum_text(x.spec_reductum(), e), precision));
                },
                Item::Reducer(rd) => {
                    let rd = *rd;
                    match rd {
                        Reducer::Input(_) => {
                            let d = choose|d: u64|
                                reducer_digest.ensures((&rd,), d) && r@ == #[trigger] reducer_item_text(d, None, label@, precision);
                            assert(r@ == reducer_item_text(d, None, label@, precision));
                        },
                        Reducer::Conclusion(c) => {
                            let (d, o) = choose|d: u64, o: u64|
                                reducer_digest.ensures((&rd,), d) && reduction_digest.ensures((&c.spec_reduction(),), o)
                                    && r@ == #[trigger] reducer_item_text(d, Some(o), label@, precision);
                            assert(r@ == reducer_item_text(d, Some(o), label@, precision));
                        },
                    }
                },
            }
        }
        r
    }

    /// The text of the item with the digests that the given functions give: for a reduction,
    /// its own digest, then that of its reducible, then that of its reducer; for a reducer, its
    /// own digest and, for a conclusion, that of its reduction. Each part's digest is what the
    /// function for its kind gives on that very part.
    pub fn text_by<
        FR: Fn(&Reduction<T, M>) -> u64,
        FB: Fn(&Reducible<T, M>) -> u64,
        FD: Fn(&Reducer<T, M>) -> u64,
    >(
        &self,
        label: &str,
        precision: Option<usize>,
        reduction_digest: &FR,
        reducible_digest: &FB,
        reducer_digest: &FD,
    ) -> (r: String)
        requires
            precision matches Some(p) ==> p <= 16,
            forall|x: &Reduction<T, M>| #[trigger] reduction_digest.requires((x,)),
            forall|x: &Reducible<T, M>| #[trigger] reducible_digest.requires((x,)),
            forall|x: &Reducer<T, M>| #[trigger] reducer_digest.requires((x,)),
        ensures
            match *self {
                Item::Reduction(x) => exists|d: u64, a: u64, b: u64, e: u64|
                    reduction_digest.ensures((&x,), d) && reducible_digest.ensures((&x.spec_reducible(),), a)
                        && reducer_digest.ensures((&x.spec_reducer(),), b) && r@ == #[trigger] reduction_item_text(
                        d,
                        a,
                        x.spec_reducible() is Rule,
                        b,
                        reductum_text(x.spec_reductum(), e),
                        precision,
                    ),
                Item::Reducer(rd) => match rd {
                    Reducer::Input(_) => exists|d: u64|
                        reducer_digest.ensures((&rd,), d) && r@ == #[trigger] reducer_item_text(d, None, label@, precision),
                    Reducer::Conclusion(c) => exists|d: u64, o: u64|
                        reducer_digest.ensures((&rd,), d) && reduction_digest.ensures((&c.spec_reduction(),), o)
                            && r@ == #[trigger] reducer_item_text(d, Some(o), label@, precision),
                },
            },
            forall|gr: spec_fn(Reduction<T, M>) -> u64, gb: spec_fn(Reducible<T, M>) -> u64, gd: spec_fn(Reducer<T, M>) -> u64|
                (forall|x: &Reduction<T, M>, d: u64| #[trigger] reduction_digest.ensures((x,), d) ==> d == gr(*x))
                    && (forall|x: &Reducible<T, M>, d: u64| #[trigger] reducible_digest.ensures((x,), d) ==> d == gb(*x))
                    && (forall|x: &Reducer<T, M>, d: u64| #[trigger] reducer_digest.ensures((x,), d) ==> d == gd(*x))
                    ==> #[trigger] is_item_text_under(*self, gr, gb, gd, label@, precision, r@),
    {
        match self {
            Item::Reduction(x) => {
                let d = reduction_digest(x);
                let a = reducible_digest(&x.0.reducible);
                let b = reducer_digest(&x.0.reducer);
                let by_rule = match &x.0.reducible {
                    Reducible::Rule(_) => true,
                    Reducible::Reduction(_) => false,
                };
                let t = x.0.reductum.text();
                let ghost e = choose|e: u64| t@ == reductum_text(x.spec_reductum(), e);
                let r = reduction_item_line(d, a, by_rule, b, t.as_str(), precision);
                assert(r@ == reduction_item_text(d, a, by_rule, b, reductum_text(x.spec_reductum(), e), precision));
                r
            },
            Item::Reducer(reducer) => {
                let d = reducer_digest(reducer);
                match reducer {
                    Reducer::Input(_) => reducer_item_line(d, None, label, precision),
                    Reducer::Conclusion(c) => {
                        let o = reduction_digest(&c.0.reduction);
                        reducer_item_line(d, Some(o), label, precision)
                    },
                }
            },
        }
    }
}

/// `text` is the text of the item under the digest functions `gr`, `gb` and `gd` of
/// reductions, reducibles and reducers, with `label` for the value of a reducer: for a
/// reduction, its digest, then its reducible's, then its reducer's; for a reducer, its digest
/// and, for a conclusion, that of its reduction.
pub open spec fn is_item_text_under<T, M>(
    item: Item<T, M>,
    gr: spec_fn(Reduction<T, M>) -> u64,
    gb: spec_fn(Reducible<T, M>) -> u64,
    gd: spec_fn(Reducer<T, M>) -> u64,
    label: Seq<char>,
    precision: Option<usize>,
    text: Seq<char>,
) -> bool {
    match item {
        Item::Reduction(x) => exists|e: u64|
            text == #[trigger] reduction_item_text(
                gr(x),
                gb(x.spec_reducible()),
                x.spec_reducible() is Rule,
                gd(x.spec_reducer()),
                reductum_text(x.spec_reductum(), e),
                precision,
            ),
        Item::Reducer(r) => match r {
            Reducer::Input(_) => text == reducer_item_text(gd(r), None, label, precision),
            Reducer::Conclusion(c) => text == reducer_item_text(
                gd(r),
                Some(gr(c.spec_reduction())),
                label,
                precision,
            ),
        },
    }
}

/// The text comfy_table draws for rows of cell texts: a table with comfy_table's `UTF8_FULL`
/// style, one table row for each row, in order.
pub uninterp spec fn utf8_table(rows: Seq<Seq<Seq<char>>>) -> Seq<char>;

/// Draws the rows of cell texts with comfy_table: `Table::new()`, `load_style(UTF8_FULL)`,
/// `add_rows`, and the table's `Display` text. With no column constraints, no cell styles and
/// content arrangement left disabled, comfy_table lays the table out from the cell texts alone
/// (the terminal's width and whether output is a terminal change nothing then), which is what
/// the name stands for.
#[verifier::external_body]
fn utf8_table_text(rows: Vec<Vec<String>>) -> (r: String)
    ensures
        r@ == utf8_table(rows.deep_view()),
{
    let mut table = comfy_table::Table::new();
    table.load_style(comfy_table::presets::UTF8_FULL);
    table.add_rows(rows);
    table.to_string()
}

/// The labels have the shape of the chart's table: one for each item of each cell.
pub open spec fn labels_fit<T, M>(chart: Chart<T, M>, labels: Seq<Vec<Vec<String>>>) -> bool {
    &&& labels.len() == chart.spec_len()
    &&& forall|i: int|
        0 <= i < labels.len() ==> (#[trigger] labels[i])@.len() == chart.spec_table()@[i]@.len()
    &&& forall|i: int, j: int|
        0 <= i < labels.len() && 0 <= j < labels[i]@.len() ==> (#[trigger] labels[i]@[j])@.len()
            == chart.cell_view(i, j).len()
}

/// The label of the `k`-th item of the cell at row `i` and column `j`.
pub open spec fn cell_labels(labels: Seq<Vec<Vec<String>>>, i: int, j: int) -> Seq<String> {
    if 0 <= i < labels.len() && 0 <= j < labels[i]@.len() {
        labels[i]@[j]@
    } else {
        Seq::empty()
    }
}

/// `cells` are the texts of the chart's cells: a row of texts for each row of the table, the
/// `i`-th with `i + 1` texts, that of each cell of the row, and empty ones for the columns
/// the row does not have.
pub open spec fn is_chart_cells<T, M>(
    chart: Chart<T, M>,
    labels: Seq<Vec<Vec<String>>>,
    cells: Seq<Seq<Seq<char>>>,
) -> bool {
    &&& cells.len() == chart.spec_len()
    &&& forall|i: int| 0 <= i < cells.len() ==> (#[trigger] cells[i]).len() == i + 1
    &&& forall|i: int, j: int|
        0 <= i < cells.len() && 0 <= j <= i ==> is_cell_text(
            chart.cell_view(i, j),
            cell_labels(labels, i, j),
            #[trigger] cells[i][j],
        )
}

/// The text of a cell: the texts of its items at precision four, each followed by a line break.
fn cell_text<T, M>(items: &Vec<Item<T, M>>, labels: &Vec<String>) -> (r: String)
    requires
        labels@.len() == items@.len(),
    ensures
        is_cell_text(items@, labels@, r@),
{
    let mut s = String::new();
    let ghost mut parts: Seq<Seq<char>> = Seq::empty();
    let mut k: usize = 0;
    while k < items.len()
        invariant
            labels@.len() == items@.len(),
            k <= items@.len(),
            parts.len() == k,
            forall|m: int|
                0 <= m < k ==> is_item_text(#[trigger] items@[m], labels@[m]@, Some(4usize), parts[m]),
            s@ == joined_lines(parts),
        decreases items@.len() - k,
    {
        let t = items[k].text(labels[k].as_str(), Some(4));
        s.append(t.as_str());
        s.push('\n');
        proof {
            let before = parts;
            parts = parts.push(t@);
            assert(parts.drop_last() =~= before);
            assert(s@ =~= joined_lines(parts));
        }
        k = k + 1;
    }
    proof {
        assert(forall|m: int| 0 <= m < items@.len() ==> is_item_text(#[trigger] items@[m], labels@[m]@, Some(4usize), parts[m]));
    }
    s
}

impl<T, M> Chart<T, M> {
    /// The texts of the cells, row by row: the `i`-th row has `i + 1` texts, one for each
    /// column, each made of the texts of the cell's items at precision four, each followed by
    /// a line break, with the labels at the same places for the values of reducers.
    pub fn cell_texts(&self, labels: &Vec<Vec<Vec<String>>>) -> (r: Vec<Vec<String>>)
        requires
            labels_fit(*self, labels@),
        ensures
            is_chart_cells(*self, labels@, r.deep_view()),
    {
        let mut rows: Vec<Vec<String>> = Vec::new();
        let n = self.table.len();
        let mut i: usize = 0;
        while i < n
            invariant
                n == self.spec_len(),
                labels_fit(*self, labels@),
                i <= self.spec_len(),
                rows@.len() == i,
                forall|a: int| 0 <= a < i ==> (#[trigger] rows@[a])@.len() == a + 1,
                forall|a: int, b: int|
                    0 <= a < i && 0 <= b <= a ==> is_cell_text(
                        self.cell_view(a, b),
                        cell_labels(labels@, a, b),
                        #[trigger] rows@[a]@[b]@,
                    ),
            decreases self.spec_len() - i,
        {
            let mut row: Vec<String> = Vec::new();
            let mut j: usize = 0;
            while j <= i
                invariant
                    labels_fit(*self, labels@),
                    n == self.spec_len(),
                    i < n,
                    j <= i + 1,
                    row@.len() == j,
                    forall|b: int|
                        0 <= b < j ==> is_cell_text(
                            self.cell_view(i as int, b),
                            cell_labels(labels@, i as int, b),
                            #[trigger] row@[b]@,
                        ),
                decreases i + 1 - j,
            {
                if j < self.table[i].len() {
                    let t = cell_text(&self.table[i][j], &labels[i][j]);
                    row.push(t);
                } else {
                    let t = String::new();
                    proof {
                        let parts: Seq<Seq<char>> = Seq::empty();
                        assert(joined_lines(parts) == Seq::<char>::empty());
                        assert(self.cell_view(i as int, j as int) =~= Seq::<Item<T, M>>::empty());
                    }
                    row.push(t);
                }
                j = j + 1;
            }
            let ghost before = rows@;
            rows.push(row);
            proof {
                assert forall|a: int, b: int|
                    0 <= a < i + 1 && 0 <= b <= a implies is_cell_text(
                        self.cell_view(a, b),
                        cell_labels(labels@, a, b),
                        #[trigger] rows@[a]@[b]@,
                    ) by {
                    if a < i {
                        assert(rows@[a] == before[a]);
                    }
                }
            }
            i = i + 1;
        }
        proof {
            let v = rows.deep_view();
            assert forall|a: int| 0 <= a < v.len() implies (#[trigger] v[a]).len() == a + 1 by {
                assert(v[a] == rows@[a].deep_view());
            }
            assert forall|a: int, b: int|
                0 <= a < v.len() && 0 <= b <= a implies is_cell_text(
                    self.cell_view(a, b),
                    cell_labels(labels@, a, b),
                    #[trigger] v[a][b],
                ) by {
                assert(v[a] == rows@[a].deep_view());
                assert(v[a][b] == rows@[a]@[b]@);
            }
        }
        rows
    }

    /// The chart drawn as a table: one table row for each row of the chart, each cell holding
    /// the texts of its items at precision four, with the labels at the same places for the
    /// values of reducers.
    pub fn text_with(&self, labels: &Vec<Vec<Vec<String>>>) -> (r: String)
        requires
            labels_fit(*self, labels@),
        ensures
            exists|cells: Seq<Seq<Seq<char>>>|
                is_chart_cells(*self, labels@, cells) && r@ == utf8_table(cells),
    {
        let cells = self.cell_texts(labels);
        let ghost view = cells.deep_view();
        let r = utf8_table_text(cells);
        assert(is_chart_cells(*self, labels@, view) && r@ == utf8_table(view));
        r
    }
}

impl<W, P, M> Parser<W, P, M> {
    /// The parser's chart drawn as a table; see [`Chart::text_with`].
    pub fn text_with(&self, labels: &Vec<Vec<Vec<String>>>) -> (r: String)
        requires
            labels_fit(self.spec_chart(), labels@),
        ensures
            exists|cells: Seq<Seq<Seq<char>>>|
                is_chart_cells(self.spec_chart(), labels@, cells) && r@ == utf8_table(cells),
    {
        self.chart.text_with(labels)
    }
}

} // verus!
