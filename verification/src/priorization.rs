//! The order of preference among the references of several repositories.
//!
//! Where an issue has a head in the local repository and in several remotes,
//! one of them is taken as the head of the issue. A local reference comes
//! before every remote one. Among the remote ones, the remotes that the
//! priorization lists come first, in the order of the list, and the others
//! after them. What is left equal is ordered by the name of the reference.

use vstd::prelude::*;
use crate::reference::{remote_name, remote_of, Reference};
use crate::seqs::lemma_leading_at;
use crate::text::{
    char_views, chars_of, differs_from, first_index_of, lemma_lex_total, lemma_lex_transitive,
    lex_le, lex_le_chars, same_chars, split, split_on, string_of, views,
};

verus! {

/// An ordered list of the names of remote repositories, the preferred one
/// first.
#[derive(Clone, Debug, PartialEq, Eq)]
pub struct RemotePriorization {
    pub remotes: Vec<String>,
}

/// The place of a reference with the given name in the order of
/// preference, apart from its name: zero for a local reference, and for a
/// remote one, one more than the place of its remote in the list, or than
/// the length of the list where the list does not hold it.
pub open spec fn rank(prios: Seq<Seq<char>>, name: Seq<char>) -> nat {
    match remote_of(name) {
        None => 0,
        Some(r) => 1 + first_index_of(prios, r),
    }
}

/// Whether a reference with the name `a` is preferred to one with the name
/// `b`, or as good: it has the lower rank, or the same rank and the name
/// that comes first.
pub open spec fn preferred(prios: Seq<Seq<char>>, a: Seq<char>, b: Seq<char>) -> bool {
    rank(prios, a) < rank(prios, b) || (rank(prios, a) == rank(prios, b) && lex_le(a, b))
}

/// Of two references, one is preferred to the other or as good.
pub proof fn lemma_preferred_total(prios: Seq<Seq<char>>, a: Seq<char>, b: Seq<char>)
    ensures
        preferred(prios, a, b) || preferred(prios, b, a),
{
    lemma_lex_total(a, b);
}

/// Preference is transitive.
pub proof fn lemma_preferred_transitive(
    prios: Seq<Seq<char>>,
    a: Seq<char>,
    b: Seq<char>,
    c: Seq<char>,
)
    requires
        preferred(prios, a, b),
        preferred(prios, b, c),
    ensures
        preferred(prios, a, c),
{
    if rank(prios, a) == rank(prios, b) && rank(prios, b) == rank(prios, c) {
        lemma_lex_transitive(a, b, c);
    }
}

/// Whether `i` is the place of the preferred one among the references with
/// the given names: the one at `i` is preferred to each of them or as good,
/// and none before it is as good. It is the first of the names when they are
/// sorted by rank and then by name.
pub open spec fn is_selected(prios: Seq<Seq<char>>, names: Seq<Seq<char>>, i: int) -> bool {
    &&& 0 <= i < names.len()
    &&& forall|j: int| 0 <= j < names.len() ==> preferred(prios, names[i], #[trigger] names[j])
    &&& forall|j: int| 0 <= j < i ==> !preferred(prios, #[trigger] names[j], names[i])
}

/// At most one place is that of the preferred reference.
pub proof fn lemma_selected_unique(prios: Seq<Seq<char>>, names: Seq<Seq<char>>, i: int, j: int)
    requires
        is_selected(prios, names, i),
        is_selected(prios, names, j),
    ensures
        i == j,
{
    if i < j {
        assert(preferred(prios, names[i], names[j]));
    } else if j < i {
        assert(preferred(prios, names[j], names[i]));
    }
}

/// The names of the given references.
pub open spec fn names_of(refs: Seq<Reference>) -> Seq<Seq<char>> {
    Seq::new(refs.len(), |i: int| refs[i].name@)
}

impl RemotePriorization {
    /// The names of the remotes, the preferred one first.
    pub open spec fn list(&self) -> Seq<Seq<char>> {
        views(self.remotes@)
    }

    /// The priorization with the given remotes, the preferred one first.
    pub fn new(remotes: Vec<String>) -> (r: RemotePriorization)
        ensures
            r.list() == views(remotes@),
    {
        RemotePriorization { remotes }
    }

    /// Reads a priorization from a list of names that commas separate.
    pub fn from_list(names: &str) -> (r: RemotePriorization)
        ensures
            r.list() == split_on(names@, ','),
    {
        let v = chars_of(names);
        let parts = split(v.as_slice(), ',');
        let mut remotes: Vec<String> = Vec::new();
        let mut i: usize = 0;
        while i < parts.len()
            invariant
                i <= parts.len(),
                remotes.len() == i,
                forall|k: int| 0 <= k < i ==> (#[trigger] remotes@[k])@ == parts@[k]@,
            decreases parts.len() - i,
        {
            remotes.push(string_of(parts[i].as_slice()));
            i += 1;
        }
        proof {
            assert(views(remotes@) =~= char_views(parts@));
        }
        RemotePriorization { remotes }
    }

    /// The place in the list of the remote of a reference with the given
    /// name: `None` for a local reference, and for a remote one the place of
    /// its remote, or the length of the list where the list does not hold
    /// it.
    pub fn place_of(&self, name: &str) -> (r: Option<usize>)
        ensures
            r is None <==> remote_of(name@) is None,
            r is Some ==> r.unwrap() == first_index_of(self.list(), remote_of(name@).unwrap()),
    {
        match remote_name(name) {
            None => None,
            Some(remote) => {
                let mut i: usize = 0;
                while i < self.remotes.len() && !same_chars(
                    chars_of(self.remotes[i].as_str()).as_slice(),
                    remote.as_slice(),
                )
                    invariant
                        i <= self.remotes.len(),
                        forall|j: int|
                            0 <= j < i ==> differs_from(remote@)(#[trigger] self.list()[j]),
                    decreases self.remotes.len() - i,
                {
                    i += 1;
                }
                proof {
                    if i < self.remotes.len() {
                        assert(self.list()[i as int] == remote@);
                    }
                    lemma_leading_at(self.list(), differs_from(remote@), i as int);
                }
                Some(i)
            },
        }
    }

    /// Whether a reference with the name `a` is preferred to one with the
    /// name `b`, or as good.
    pub fn prefers(&self, a: &str, b: &str) -> (r: bool)
        ensures
            r == preferred(self.list(), a@, b@),
    {
        let pa = self.place_of(a);
        let pb = self.place_of(b);
        let same_rank = match (pa, pb) {
            (None, None) => true,
            (Some(x), Some(y)) => x == y,
            _ => false,
        };
        if same_rank {
            let x = chars_of(a);
            let y = chars_of(b);
            lex_le_chars(x.as_slice(), y.as_slice())
        } else {
            match (pa, pb) {
                (None, _) => true,
                (Some(x), Some(y)) => x < y,
                _ => false,
            }
        }
    }

    /// The place of the preferred one among the candidates: `None` where
    /// there is no candidate, and else the place of the first of them when
    /// they are sorted by rank and then by name.
    pub fn select_index(&self, candidates: &Vec<Reference>) -> (r: Option<usize>)
        ensures
            r is None <==> candidates.len() == 0,
            r is Some ==> is_selected(self.list(), names_of(candidates@), r.unwrap() as int),
    {
        if candidates.len() == 0 {
            return None;
        }
        let ghost names = names_of(candidates@);
        let ghost prios = self.list();
        let mut best: usize = 0;
        let mut k: usize = 1;
        proof {
            lemma_lex_total(names[0], names[0]);
        }
        while k < candidates.len()
            invariant
                1 <= k <= candidates.len(),
                best < k,
                names == names_of(candidates@),
                prios == self.list(),
                forall|j: int|
                    0 <= j < k ==> preferred(prios, names[best as int], #[trigger] names[j]),
                forall|j: int|
                    0 <= j < best ==> !preferred(prios, #[trigger] names[j], names[best as int]),
            decreases candidates.len() - k,
        {
            let keep = self.prefers(candidates[best].name.as_str(), candidates[k].name.as_str());
            if !keep {
                proof {
                    let b = names[best as int];
                    let c = names[k as int];
                    lemma_preferred_total(prios, b, c);
                    lemma_lex_total(c, c);
                    assert forall|j: int| 0 <= j < k + 1 implies preferred(
                        prios,
                        c,
                        #[trigger] names[j],
                    ) by {
                        if j < k {
                            lemma_preferred_transitive(prios, c, b, names[j]);
                        }
                    }
                    assert forall|j: int| 0 <= j < k implies !preferred(
                        prios,
                        #[trigger] names[j],
                        c,
                    ) by {
                        if preferred(prios, names[j], c) {
                            lemma_preferred_transitive(prios, b, names[j], c);
                        }
                    }
                }
                best = k;
            }
            k += 1;
        }
        Some(best)
    }

    /// The preferred one among the candidates: `None` where there is no
    /// candidate, and else the first of them when they are sorted by rank
    /// and then by name.
    pub fn select_ref<'a>(&self, candidates: &'a Vec<Reference>) -> (r: Option<&'a Reference>)
        ensures
            r is None <==> candidates.len() == 0,
            r is Some ==> exists|i: int|
                is_selected(self.list(), names_of(candidates@), i) && *r.unwrap()
                    == #[trigger] candidates@[i],
    {
        match self.select_index(candidates) {
            Some(i) => Some(&candidates[i]),
            None => None,
        }
    }
}

} // verus!
