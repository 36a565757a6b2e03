//! Sets of names, kept in lexicographic order without repetition.
use vstd::prelude::*;
use crate::order::{
    lemma_lex_asymmetric, lemma_lex_irreflexive, lemma_lex_total, lemma_lex_transitive,
    lex_less, order_text, TextOrder,
};

verus! {

/// Whether every element of `s` comes strictly before all later ones.
pub open spec fn strictly_sorted(s: Seq<Seq<char>>) -> bool {
    forall|i: int, j: int| 0 <= i < j < s.len() ==> lex_less(#[trigger] s[i], #[trigger] s[j])
}

/// A strictly sorted sequence holds nothing twice.
pub proof fn lemma_sorted_no_duplicates(s: Seq<Seq<char>>)
    requires
        strictly_sorted(s),
    ensures
        s.no_duplicates(),
{
    assert forall|i: int, j: int| 0 <= i < s.len() && 0 <= j < s.len() && i != j implies s[i]
        != s[j] by {
        if i < j {
            lemma_lex_irreflexive(s[i]);
        } else {
            lemma_lex_irreflexive(s[j]);
        }
    }
}

/// Two strictly sorted sequences with the same elements are equal.
pub proof fn lemma_sorted_unique(a: Seq<Seq<char>>, b: Seq<Seq<char>>)
    requires
        strictly_sorted(a),
        strictly_sorted(b),
        forall|x: Seq<char>| a.contains(x) <==> b.contains(x),
    ensures
        a == b,
    decreases a.len(),
{
    if a.len() == 0 {
        if b.len() > 0 {
            assert(b.contains(b[0]));
        }
        assert(a =~= b);
    } else {
        assert(a.contains(a[0]));
        assert(b.len() > 0);
        assert(b.contains(b[0]));
        // The least elements agree.
        let i = choose|i: int| 0 <= i < b.len() && b[i] == a[0];
        let j = choose|j: int| 0 <= j < a.len() && a[j] == b[0];
        if i > 0 && j > 0 {
            lemma_lex_asymmetric(b[0], b[i]);
        }
        if i > 0 && j == 0 {
            lemma_lex_irreflexive(b[0]);
        }
        assert(a[0] == b[0]);
        let a1 = a.drop_first();
        let b1 = b.drop_first();
        assert forall|x: Seq<char>| a1.contains(x) <==> b1.contains(x) by {
            if a1.contains(x) {
                let k = choose|k: int| 0 <= k < a1.len() && a1[k] == x;
                assert(a[k + 1] == x);
                assert(a.contains(x));
                let m = choose|m: int| 0 <= m < b.len() && b[m] == x;
                if m == 0 {
                    lemma_lex_irreflexive(a[0]);
                }
                assert(b1[m - 1] == x);
            }
            if b1.contains(x) {
                let k = choose|k: int| 0 <= k < b1.len() && b1[k] == x;
                assert(b[k + 1] == x);
                assert(b.contains(x));
                let m = choose|m: int| 0 <= m < a.len() && a[m] == x;
                if m == 0 {
                    lemma_lex_irreflexive(b[0]);
                }
                assert(a1[m - 1] == x);
            }
        }
        assert forall|i: int, j: int| 0 <= i < j < a1.len() implies lex_less(
            #[trigger] a1[i],
            #[trigger] a1[j],
        ) by {
            assert(a1[i] == a[i + 1] && a1[j] == a[j + 1]);
        }
        assert forall|i: int, j: int| 0 <= i < j < b1.len() implies lex_less(
            #[trigger] b1[i],
            #[trigger] b1[j],
        ) by {
            assert(b1[i] == b[i + 1] && b1[j] == b[j + 1]);
        }
        lemma_sorted_unique(a1, b1);
        assert(a =~= seq![a[0]] + a1);
        assert(b =~= seq![b[0]] + b1);
    }
}

/// A set of names, held in lexicographic order.
#[derive(Debug, PartialEq, Eq)]
pub struct NameSet {
    names: Vec<String>,
}

impl View for NameSet {
    type V = Seq<Seq<char>>;

    /// The names of the set, in ascending order.
    closed spec fn view(&self) -> Seq<Seq<char>> {
        self.names.deep_view()
    }
}

impl Clone for NameSet {
    /// A copy of the set.
    fn clone(&self) -> (r: NameSet)
        ensures
            r@ == self@,
    {
        proof {
            use_type_invariant(self);
        }
        let mut names: Vec<String> = Vec::new();
        let mut i: usize = 0;
        while i < self.names.len()
            invariant
                i <= self.names.len(),
                names.len() == i,
                forall|k: int| 0 <= k < i ==> names@[k]@ == self.names@[k]@,
            decreases self.names.len() - i,
        {
            names.push(self.names[i].clone());
            i += 1;
        }
        assert(names.deep_view() =~= self.names.deep_view());
        NameSet { names }
    }
}

impl NameSet {
    #[verifier::type_invariant]
    spec fn ordered(self) -> bool {
        strictly_sorted(self.names.deep_view())
    }

    /// The empty set.
    pub fn new() -> (r: NameSet)
        ensures
            r@ == Seq::<Seq<char>>::empty(),
    {
        let names: Vec<String> = Vec::new();
        assert(names.deep_view() =~= Seq::<Seq<char>>::empty());
        NameSet { names }
    }

    /// The names of the set, in ascending order.
    pub fn names(&self) -> (r: &Vec<String>)
        ensures
            r.deep_view() == self@,
            strictly_sorted(self@),
    {
        proof {
            use_type_invariant(self);
        }
        &self.names
    }

    /// How many names the set holds.
    pub fn len(&self) -> (r: usize)
        ensures
            r == self@.len(),
            strictly_sorted(self@),
    {
        proof {
            use_type_invariant(self);
        }
        self.names.len()
    }

    /// The name at position `i`, counting in ascending order.
    pub fn get(&self, i: usize) -> (r: &String)
        requires
            i < self@.len(),
        ensures
            r@ == self@[i as int],
    {
        &self.names[i]
    }

    /// Whether `name` is in the set.
    pub fn contains(&self, name: &str) -> (r: bool)
        ensures
            r == self@.contains(name@),
    {
        let mut i: usize = 0;
        while i < self.names.len()
            invariant
                i <= self.names.len(),
                forall|k: int| 0 <= k < i ==> self@[k] != name@,
            decreases self.names.len() - i,
        {
            if crate::text::text_eq(self.names[i].as_str(), name) {
                assert(self@[i as int] == name@);
                return true;
            }
            i += 1;
        }
        false
    }

    /// Adds `name` to the set; says whether it was new.
    pub fn insert(&mut self, name: String) -> (r: bool)
        ensures
            r == !old(self)@.contains(name@),
            strictly_sorted(final(self)@),
            forall|x: Seq<char>|
                final(self)@.contains(x) <==> (old(self)@.contains(x) || x == name@),
    {
        proof {
            use_type_invariant(&*self);
        }
        let ghost before = self@;
        let mut i: usize = 0;
        let mut placed = false;
        while !placed && i < self.names.len()
            invariant
                i <= self.names.len(),
                self@ == before,
                strictly_sorted(before),
                forall|k: int| 0 <= k < i ==> lex_less(before[k], name@),
                placed ==> i < before.len() && lex_less(name@, before[i as int]),
            decreases self.names.len() - i + if placed { 0int } else { 1int },
        {
            match order_text(self.names[i].as_str(), name.as_str()) {
                TextOrder::Before => {
                    i += 1;
                },
                TextOrder::Same => {
                    assert(before[i as int] == name@);
                    return false;
                },
                TextOrder::After => {
                    proof {
                        lemma_lex_total(before[i as int], name@);
                    }
                    placed = true;
                },
            }
        }
        proof {
            assert forall|k: int| i <= k < before.len() implies lex_less(name@, before[k]) by {
                if k > i {
                    lemma_lex_transitive(name@, before[i as int], before[k]);
                }
            }
            assert forall|k: int| 0 <= k < before.len() implies before[k] != name@ by {
                lemma_lex_irreflexive(name@);
            }
        }
        let ghost added = name@;
        let mut names: Vec<String> = Vec::new();
        assert(names.deep_view() =~= Seq::<Seq<char>>::empty());
        std::mem::swap(&mut self.names, &mut names);
        names.insert(i, name);
        proof {
            let after = names.deep_view();
            assert(after =~= before.insert(i as int, added));
            assert forall|a: int, b: int| 0 <= a < b < after.len() implies lex_less(
                #[trigger] after[a],
                #[trigger] after[b],
            ) by {
                if a < i && b == i {
                } else if a < i && b > i {
                    assert(after[b] == before[b - 1]);
                } else if a == i {
                    assert(after[b] == before[b - 1]);
                } else if a < i && b < i {
                } else {
                    assert(after[a] == before[a - 1]);
                    assert(after[b] == before[b - 1]);
                }
            }
            assert forall|x: Seq<char>| after.contains(x) <==> (before.contains(x) || x
                == added) by {
                if after.contains(x) {
                    let k = choose|k: int| 0 <= k < after.len() && after[k] == x;
                    if k < i {
                        assert(before[k] == x);
                    } else if k > i {
                        assert(before[k - 1] == x);
                    }
                }
                if before.contains(x) {
                    let k = choose|k: int| 0 <= k < before.len() && before[k] == x;
                    if k < i {
                        assert(after[k] == x);
                    } else {
                        assert(after[k + 1] == x);
                    }
                }
                if x == added {
                    assert(after[i as int] == x);
                }
            }
        }
        std::mem::swap(&mut self.names, &mut names);
        true
    }
}

} // verus!
