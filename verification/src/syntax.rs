//! The shape of a rule as it is written down (`antecedents => consequents`), and the checks that
//! decide whether it makes a rule: how many antecedents each consequent covers.
use vstd::prelude::*;

verus! {

/// One consequent as written in a rule: a placeholder `_`, which leaves its antecedent as it
/// was, or a value preceded by `dots` underscore-dots (`_.`), each of which hands one more
/// antecedent to the value.
pub enum Consequent {
    Placeholder,
    Value { dots: usize },
}

impl Consequent {
    /// How many antecedents this consequent covers when written alone.
    pub open spec fn spec_len(self) -> nat {
        match self {
            Consequent::Placeholder => 1,
            Consequent::Value { dots } => dots as nat + 1,
        }
    }

    /// Whether this is a placeholder.
    pub fn is_placeholder(&self) -> (r: bool)
        ensures
            r == (self is Placeholder),
    {
        match self {
            Consequent::Placeholder => true,
            _ => false,
        }
    }

    /// How many antecedents this consequent covers when written alone.
    pub fn len(&self) -> (r: usize)
        requires
            self.spec_len() <= usize::MAX,
        ensures
            r == self.spec_len(),
    {
        match self {
            Consequent::Placeholder => 1,
            Consequent::Value { dots } => *dots + 1,
        }
    }
}

/// How many antecedents the consequents cover together, each written alone.
pub open spec fn total_len(cs: Seq<Consequent>) -> nat
    decreases cs.len(),
{
    if cs.len() == 0 {
        0
    } else {
        total_len(cs.drop_last()) + cs.last().spec_len()
    }
}

/// Why a written rule does not make a rule.
#[derive(Debug, PartialEq, Eq, Structural)]
pub enum SyntaxError {
    /// At least one antecedent is required.
    NoAntecedent,
    /// At least one consequent is required.
    NoConsequent,
    /// At least one consequent that is not a placeholder is required.
    OnlyPlaceholders,
    /// A rule must have exactly one consequent, or consequents that cover as many antecedents
    /// as there are.
    WidthMismatch { antecedents: usize, consequents: usize },
}

/// A rule as written: its number of antecedents and its consequents.
pub struct Subrule {
    pub antecedents: usize,
    pub consequents: Vec<Consequent>,
}

/// The width each consequent gets in the rule: none for a placeholder; for a value, all the
/// antecedents in a context-free rule (one consequent), or what it covers written alone.
pub open spec fn widths(antecedents: usize, cs: Seq<Consequent>) -> Seq<Option<usize>> {
    Seq::new(
        cs.len(),
        |i: int|
            match cs[i] {
                Consequent::Placeholder => None,
                Consequent::Value { dots } => Some(
                    if cs.len() == 1 {
                        antecedents
                    } else {
                        (dots + 1) as usize
                    },
                ),
            },
    )
}

impl Subrule {
    /// A rule with one consequent is context free.
    pub fn is_context_free(&self) -> (r: bool)
        ensures
            r == (self.consequents@.len() == 1),
    {
        self.consequents.len() == 1
    }

    /// Checks the written rule, and gives the width of each consequent: how many antecedents
    /// each value covers (`None` for a placeholder).
    pub fn expand(&self) -> (r: Result<Vec<Option<usize>>, SyntaxError>)
        requires
            total_len(self.consequents@) <= usize::MAX,
        ensures
            self.antecedents == 0 ==> r == Err::<Vec<Option<usize>>, SyntaxError>(
                SyntaxError::NoAntecedent,
            ),
            self.antecedents > 0 && self.consequents@.len() == 0 ==> r == Err::<
                Vec<Option<usize>>,
                SyntaxError,
            >(SyntaxError::NoConsequent),
            self.antecedents > 0 && self.consequents@.len() > 0 && (forall|i: int|
                0 <= i < self.consequents@.len() ==> #[trigger] self.consequents@[i] is Placeholder)
                ==> r == Err::<Vec<Option<usize>>, SyntaxError>(SyntaxError::OnlyPlaceholders),
            self.antecedents > 0 && self.consequents@.len() > 0 && (exists|i: int|
                0 <= i < self.consequents@.len() && #[trigger] self.consequents@[i] is Value)
                && self.consequents@.len() != 1 && total_len(self.consequents@) != self.antecedents
                ==> r == Err::<Vec<Option<usize>>, SyntaxError>(
                SyntaxError::WidthMismatch {
                    antecedents: self.antecedents,
                    consequents: total_len(self.consequents@) as usize,
                },
            ),
            self.antecedents > 0 && self.consequents@.len() > 0 && (exists|i: int|
                0 <= i < self.consequents@.len() && #[trigger] self.consequents@[i] is Value) && (
            self.consequents@.len() == 1 || total_len(self.consequents@) == self.antecedents)
                ==> (r matches Ok(w) && w@ == widths(self.antecedents, self.consequents@)),
    {
        let n = self.consequents.len();
        let mut sum: usize = 0;
        let mut any_value = false;
        let mut i: usize = 0;
        while i < n
            invariant
                n == self.consequents@.len(),
                i <= n,
                total_len(self.consequents@) <= usize::MAX,
                sum == total_len(self.consequents@.subrange(0, i as int)),
                any_value == exists|j: int| 0 <= j < i && #[trigger] self.consequents@[j] is Value,
            decreases n - i,
        {
            proof {
                assert(self.consequents@.subrange(0, i + 1).drop_last() =~= self.consequents@.subrange(0, i as int));
                lemma_total_len_prefix(self.consequents@, i + 1);
            }
            let len = self.consequents[i].len();
            sum = sum + len;
            if !self.consequents[i].is_placeholder() {
                any_value = true;
            }
            i = i + 1;
        }
        assert(self.consequents@.subrange(0, i as int) =~= self.consequents@);
        if self.antecedents == 0 {
            return Err(SyntaxError::NoAntecedent);
        }
        if n == 0 {
            return Err(SyntaxError::NoConsequent);
        }
        if !any_value {
            return Err(SyntaxError::OnlyPlaceholders);
        }
        let context_free = n == 1;
        if !context_free && sum != self.antecedents {
            return Err(SyntaxError::WidthMismatch { antecedents: self.antecedents, consequents: sum });
        }
        let mut w: Vec<Option<usize>> = Vec::new();
        let mut k: usize = 0;
        while k < n
            invariant
                n == self.consequents@.len(),
                context_free == (n == 1),
                k <= n,
                total_len(self.consequents@) <= usize::MAX,
                w@ == widths(self.antecedents, self.consequents@).subrange(0, k as int),
            decreases n - k,
        {
            proof {
                lemma_total_len_element(self.consequents@, k as int);
            }
            match &self.consequents[k] {
                Consequent::Placeholder => w.push(None),
                Consequent::Value { dots } => {
                    if context_free {
                        w.push(Some(self.antecedents));
                    } else {
                        w.push(Some(*dots + 1));
                    }
                },
            }
            k = k + 1;
            assert(w@ =~= widths(self.antecedents, self.consequents@).subrange(0, k as int));
        }
        assert(w@ =~= widths(self.antecedents, self.consequents@));
        Ok(w)
    }
}

/// One consequent covers no more than all of them together.
proof fn lemma_total_len_element(cs: Seq<Consequent>, k: int)
    requires
        0 <= k < cs.len(),
    ensures
        cs[k].spec_len() <= total_len(cs),
    decreases cs.len(),
{
    if k < cs.len() - 1 {
        lemma_total_len_element(cs.drop_last(), k);
        assert(cs.drop_last()[k] == cs[k]);
    }
}

/// The consequents of a prefix cover no more than all of them.
proof fn lemma_total_len_prefix(cs: Seq<Consequent>, i: int)
    requires
        0 <= i <= cs.len(),
    ensures
        total_len(cs.subrange(0, i)) <= total_len(cs),
    decreases cs.len(),
{
    if i < cs.len() {
        lemma_total_len_prefix(cs.drop_last(), i);
        assert(cs.drop_last().subrange(0, i) =~= cs.subrange(0, i));
    } else {
        assert(cs.subrange(0, i) =~= cs);
    }
}

/// The debug text of the step of a rule that starts at the `i`-th antecedent: the texts of the
/// antecedents from the `i`-th on, joined by `, `, then ` => ` and the text of the consequents.
pub open spec fn step_text(antecedents: Seq<String>, consequents: Seq<char>, i: int) -> Seq<char>
    decreases antecedents.len() - i,
{
    if i < 0 || i >= antecedents.len() {
        Seq::empty()
    } else if i == antecedents.len() - 1 {
        antecedents[i]@ + seq![' ', '=', '>', ' '] + consequents
    } else {
        antecedents[i]@ + seq![',', ' '] + step_text(antecedents, consequents, i + 1)
    }
}

/// The debug texts of the steps of a written rule, one for each antecedent: the step that
/// starts at an antecedent is written as the remaining antecedents, `=>`, and the consequents.
pub fn step_texts(antecedents: &Vec<String>, consequents: &str) -> (r: Vec<String>)
    ensures
        r@.len() == antecedents@.len(),
        forall|i: int|
            0 <= i < r@.len() ==> (#[trigger] r@[i])@ == step_text(antecedents@, consequents@, i),
{
    let n = antecedents.len();
    let mut reversed: Vec<String> = Vec::new();
    let mut k: usize = 0;
    while k < n
        invariant
            n == antecedents@.len(),
            k <= n,
            reversed@.len() == k,
            forall|m: int|
                0 <= m < k ==> (#[trigger] reversed@[m])@ == step_text(
                    antecedents@,
                    consequents@,
                    n - 1 - m,
                ),
        decreases n - k,
    {
        let i = n - 1 - k;
        let mut text = String::new();
        text.append(antecedents[i].as_str());
        if k == 0 {
            text.push(' ');
            text.push('=');
            text.push('>');
            text.push(' ');
            text.append(consequents);
        } else {
            text.push(',');
            text.push(' ');
            text.append(reversed[k - 1].as_str());
        }
        assert(text@ =~= step_text(antecedents@, consequents@, i as int));
        reversed.push(text);
        k = k + 1;
    }
    let mut r: Vec<String> = Vec::new();
    let mut j: usize = 0;
    while j < n
        invariant
            n == antecedents@.len(),
            reversed@.len() == n,
            j <= n,
            r@.len() == j,
            forall|m: int|
                0 <= m < n ==> (#[trigger] reversed@[m])@ == step_text(
                    antecedents@,
                    consequents@,
                    n - 1 - m,
                ),
            forall|i: int|
                0 <= i < j ==> (#[trigger] r@[i])@ == step_text(antecedents@, consequents@, i),
        decreases n - j,
    {
        let t = reversed[n - 1 - j].clone();
        r.push(t);
        j = j + 1;
    }
    r
}

} // verus!
