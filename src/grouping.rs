use crate::catalog::SearchCandidate;
use vstd::prelude::*;

verus! {

/// The candidates sharing one exact release label, as ascending positions into the
/// candidate list that was grouped.
#[derive(Debug)]
pub struct CandidateGroup {
    pub release: String,
    pub members: Vec<usize>,
}

/// The text of each string.
pub open spec fn text_views(v: Seq<String>) -> Seq<Seq<char>> {
    v.map_values(|x: String| x@)
}

/// The distinct release labels of the first `n` candidates, in first-seen order.
pub open spec fn labels_upto(s: Seq<SearchCandidate>, n: nat) -> Seq<Seq<char>>
    decreases n,
{
    if n == 0 {
        Seq::empty()
    } else {
        let p = labels_upto(s, (n - 1) as nat);
        if p.contains(s[n - 1].release@) {
            p
        } else {
            p.push(s[n - 1].release@)
        }
    }
}

/// The distinct release labels of `s`, in first-seen order.
pub open spec fn release_labels(s: Seq<SearchCandidate>) -> Seq<Seq<char>> {
    labels_upto(s, s.len())
}

/// The ascending positions among the first `n` candidates whose release label is `l`.
pub open spec fn members_upto(s: Seq<SearchCandidate>, l: Seq<char>, n: nat) -> Seq<usize>
    decreases n,
{
    if n == 0 {
        Seq::empty()
    } else {
        let p = members_upto(s, l, (n - 1) as nat);
        if s[n - 1].release@ == l {
            p.push((n - 1) as usize)
        } else {
            p
        }
    }
}

/// The ascending positions of the candidates whose release label is `l`.
pub open spec fn members_of(s: Seq<SearchCandidate>, l: Seq<char>) -> Seq<usize> {
    members_upto(s, l, s.len())
}

/// `groups` holds one group per distinct label of `s`, in first-seen order, each with
/// exactly the candidates of that label, in input order.
pub open spec fn is_grouping_of(groups: Seq<CandidateGroup>, s: Seq<SearchCandidate>) -> bool {
    &&& groups.len() == release_labels(s).len()
    &&& forall|g: int|
        0 <= g < groups.len() ==> {
            &&& #[trigger] groups[g].release@ == release_labels(s)[g]
            &&& groups[g].members@ == members_of(s, release_labels(s)[g])
        }
}

/// Whether `labels` holds a string equal to `l`.
pub fn contains_text(labels: &Vec<String>, l: &String) -> (r: bool)
    ensures
        r == text_views(labels@).contains(l@),
{
    let mut j: usize = 0;
    while j < labels.len()
        invariant
            j <= labels@.len(),
            forall|k: int| 0 <= k < j ==> labels@[k]@ != l@,
        decreases labels@.len() - j,
    {
        if labels[j] == *l {
            assert(text_views(labels@)[j as int] == l@);
            return true;
        }
        j += 1;
    }
    assert(!text_views(labels@).contains(l@)) by {
        if text_views(labels@).contains(l@) {
            let k = choose|k: int| 0 <= k < text_views(labels@).len() && text_views(labels@)[k] == l@;
            assert(labels@[k]@ == l@);
        }
    }
    false
}

/// The distinct release labels of `candidates`, in first-seen order.
pub fn distinct_releases(candidates: &Vec<SearchCandidate>) -> (r: Vec<String>)
    ensures
        text_views(r@) == release_labels(candidates@),
{
    let mut labels: Vec<String> = Vec::new();
    let mut i: usize = 0;
    while i < candidates.len()
        invariant
            i <= candidates@.len(),
            text_views(labels@) == labels_upto(candidates@, i as nat),
        decreases candidates@.len() - i,
    {
        let l = &candidates[i].release;
        if !contains_text(&labels, l) {
            labels.push(l.clone());
            assert(text_views(labels@) =~= labels_upto(candidates@, i as nat).push(l@));
        }
        i += 1;
    }
    labels
}

/// The ascending positions of the candidates whose release label is `l`.
pub fn members_with_release(candidates: &Vec<SearchCandidate>, l: &String) -> (r: Vec<usize>)
    ensures
        r@ == members_of(candidates@, l@),
{
    let mut members: Vec<usize> = Vec::new();
    let mut i: usize = 0;
    while i < candidates.len()
        invariant
            i <= candidates@.len(),
            members@ == members_upto(candidates@, l@, i as nat),
        decreases candidates@.len() - i,
    {
        if candidates[i].release == *l {
            members.push(i);
        }
        i += 1;
    }
    members
}

/// Groups `candidates` by exact release label: one group per distinct label, in
/// first-seen order, each holding the positions of its candidates in input order.
pub fn group(candidates: &Vec<SearchCandidate>) -> (r: Vec<CandidateGroup>)
    ensures
        is_grouping_of(r@, candidates@),
{
    let labels = distinct_releases(candidates);
    let mut groups: Vec<CandidateGroup> = Vec::new();
    let mut g: usize = 0;
    while g < labels.len()
        invariant
            g <= labels@.len(),
            text_views(labels@) == release_labels(candidates@),
            groups@.len() == g,
            forall|k: int|
                0 <= k < g ==> {
                    &&& #[trigger] groups@[k].release@ == release_labels(candidates@)[k]
                    &&& groups@[k].members@ == members_of(
                        candidates@,
                        release_labels(candidates@)[k],
                    )
                },
        decreases labels@.len() - g,
    {
        let release = labels[g].clone();
        assert(text_views(labels@)[g as int] == labels@[g as int]@);
        let members = members_with_release(candidates, &release);
        groups.push(CandidateGroup { release, members });
        g += 1;
    }
    groups
}

} // verus!

verus! {

/// The number of candidates, among the first `n`, in the groups of the labels `ls`.
pub open spec fn total_upto(s: Seq<SearchCandidate>, ls: Seq<Seq<char>>, n: nat) -> nat
    decreases ls.len(),
{
    if ls.len() == 0 {
        0
    } else {
        total_upto(s, ls.drop_last(), n) + members_upto(s, ls.last(), n).len()
    }
}

/// How many times `x` occurs in `ls`.
pub open spec fn occurrences(ls: Seq<Seq<char>>, x: Seq<char>) -> nat
    decreases ls.len(),
{
    if ls.len() == 0 {
        0
    } else {
        occurrences(ls.drop_last(), x) + if ls.last() == x {
            1nat
        } else {
            0nat
        }
    }
}

proof fn lemma_total_step(s: Seq<SearchCandidate>, ls: Seq<Seq<char>>, n: nat)
    requires
        n < s.len(),
    ensures
        total_upto(s, ls, n + 1) == total_upto(s, ls, n) + occurrences(ls, s[n as int].release@),
    decreases ls.len(),
{
    if ls.len() > 0 {
        lemma_total_step(s, ls.drop_last(), n);
    }
}

proof fn lemma_occurrences(ls: Seq<Seq<char>>, x: Seq<char>)
    requires
        ls.no_duplicates(),
    ensures
        ls.contains(x) ==> occurrences(ls, x) == 1,
        !ls.contains(x) ==> occurrences(ls, x) == 0,
    decreases ls.len(),
{
    if ls.len() > 0 {
        let p = ls.drop_last();
        assert(p.no_duplicates());
        lemma_occurrences(p, x);
        if ls.last() == x {
            assert(!p.contains(x)) by {
                if p.contains(x) {
                    let i = choose|i: int| 0 <= i < p.len() && p[i] == x;
                    assert(ls[i] == ls[ls.len() - 1]);
                }
            }
        } else {
            assert(ls.contains(x) ==> p.contains(x)) by {
                if ls.contains(x) {
                    let i = choose|i: int| 0 <= i < ls.len() && ls[i] == x;
                    assert(p[i] == x);
                }
            }
            assert(p.contains(x) ==> ls.contains(x)) by {
                if p.contains(x) {
                    let i = choose|i: int| 0 <= i < p.len() && p[i] == x;
                    assert(ls[i] == x);
                }
            }
        }
    }
}

pub(crate) proof fn lemma_labels_distinct_and_complete(s: Seq<SearchCandidate>, n: nat)
    requires
        n <= s.len(),
    ensures
        labels_upto(s, n).no_duplicates(),
        forall|k: int| 0 <= k < n ==> labels_upto(s, n).contains(#[trigger] s[k].release@),
        forall|l: Seq<char>| #[trigger] labels_upto(s, n).contains(l) ==> exists|k: int|
            0 <= k < n && s[k].release@ == l,
    decreases n,
{
    if n > 0 {
        let m = (n - 1) as nat;
        lemma_labels_distinct_and_complete(s, m);
        let p = labels_upto(s, m);
        let x = s[m as int].release@;
        if !p.contains(x) {
            let q = p.push(x);
            assert forall|i: int, j: int|
                0 <= i < q.len() && 0 <= j < q.len() && i != j implies q[i] != q[j] by {
                if i < p.len() && j < p.len() {
                } else if i < p.len() {
                    assert(p.contains(q[i]));
                } else {
                    assert(p.contains(q[j]));
                }
            }
            assert forall|k: int| 0 <= k < n implies q.contains(#[trigger] s[k].release@) by {
                if k < m {
                    let i = choose|i: int| 0 <= i < p.len() && p[i] == s[k].release@;
                    assert(q[i] == s[k].release@);
                } else {
                    assert(q[q.len() - 1] == x);
                }
            }
            assert forall|l: Seq<char>| #[trigger] q.contains(l) implies exists|k: int|
                0 <= k < n && s[k].release@ == l by {
                let i = choose|i: int| 0 <= i < q.len() && q[i] == l;
                if i < p.len() {
                    assert(p.contains(l));
                } else {
                    assert(s[m as int].release@ == l);
                }
            }
        }
    }
}

proof fn lemma_members_membership(s: Seq<SearchCandidate>, l: Seq<char>, n: nat)
    requires
        n <= s.len(),
        s.len() <= usize::MAX,
    ensures
        forall|k: int|
            #![trigger s[k]]
            #![trigger members_upto(s, l, n).contains(k as usize)]
            0 <= k < s.len() ==> (members_upto(s, l, n).contains(k as usize) <==> (k < n
                && s[k].release@ == l)),
    decreases n,
{
    if n > 0 {
        let m = (n - 1) as nat;
        lemma_members_membership(s, l, m);
        let p = members_upto(s, l, m);
        let q = members_upto(s, l, n);
        assert forall|k: int| 0 <= k < s.len() implies (#[trigger] q.contains(k as usize) <==> (k
            < n && s[k].release@ == l)) by {
            assert(s[k] == s[k]);
            if s[m as int].release@ == l {
                assert(q == p.push(m as usize));
            } else {
                assert(q == p);
            }
            if q.contains(k as usize) {
                let i = choose|i: int| 0 <= i < q.len() && q[i] == k as usize;
                if i < p.len() {
                    assert(p[i] == q[i]);
                    assert(p.contains(k as usize));
                } else {
                    assert(q[i] == m as usize);
                }
            }
            if k < n && s[k].release@ == l {
                if k < m {
                    assert(p.contains(k as usize));
                    let i = choose|i: int| 0 <= i < p.len() && p[i] == k as usize;
                    assert(q[i] == p[i]);
                } else {
                    assert(q[q.len() - 1] == m as usize);
                }
            }
        }
    } else {
        assert forall|k: int| 0 <= k < s.len() implies (#[trigger] members_upto(s, l, n).contains(
            k as usize,
        ) <==> (k < n && s[k].release@ == l)) by {
            assert(members_upto(s, l, n).len() == 0);
        }
    }
}

proof fn lemma_unlabelled_has_no_members(s: Seq<SearchCandidate>, l: Seq<char>, n: nat)
    requires
        n <= s.len(),
        !labels_upto(s, n).contains(l),
    ensures
        members_upto(s, l, n).len() == 0,
    decreases n,
{
    if n > 0 {
        let m = (n - 1) as nat;
        lemma_labels_distinct_and_complete(s, n);
        let p = labels_upto(s, m);
        assert(!p.contains(l)) by {
            if p.contains(l) {
                let i = choose|i: int| 0 <= i < p.len() && p[i] == l;
                if !p.contains(s[m as int].release@) {
                    assert(p.push(s[m as int].release@)[i] == l);
                }
            }
        }
        assert(labels_upto(s, n).contains(s[m as int].release@));
        lemma_unlabelled_has_no_members(s, l, m);
    }
}

proof fn lemma_total(s: Seq<SearchCandidate>, n: nat)
    requires
        n <= s.len(),
    ensures
        total_upto(s, labels_upto(s, n), n) == n,
    decreases n,
{
    if n > 0 {
        let m = (n - 1) as nat;
        lemma_total(s, m);
        let ls = labels_upto(s, m);
        let x = s[m as int].release@;
        lemma_total_step(s, ls, m);
        lemma_labels_distinct_and_complete(s, m);
        lemma_occurrences(ls, x);
        if !ls.contains(x) {
            lemma_unlabelled_has_no_members(s, x, m);
            assert(ls.push(x).drop_last() =~= ls);
        }
    }
}

/// Grouping loses and duplicates nothing: the group sizes add up to the number of
/// candidates, and each candidate lies in the group of exactly one label, that of its
/// own release.
pub proof fn lemma_grouping_complete(s: Seq<SearchCandidate>)
    requires
        s.len() <= usize::MAX,
    ensures
        total_upto(s, release_labels(s), s.len()) == s.len(),
        forall|k: int|
            0 <= k < s.len() ==> release_labels(s).contains(#[trigger] s[k].release@)
                && members_of(s, s[k].release@).contains(k as usize),
        forall|k: int, g1: int, g2: int|
            #![trigger members_of(s, release_labels(s)[g1]).contains(k as usize), members_of(s, release_labels(s)[g2]).contains(k as usize)]
            0 <= k < s.len() && 0 <= g1 < release_labels(s).len() && 0 <= g2 < release_labels(
                s,
            ).len() && members_of(s, release_labels(s)[g1]).contains(k as usize) && members_of(
                s,
                release_labels(s)[g2],
            ).contains(k as usize) ==> g1 == g2,
{
    let ls = release_labels(s);
    lemma_total(s, s.len());
    lemma_labels_distinct_and_complete(s, s.len());
    assert forall|k: int| 0 <= k < s.len() implies ls.contains(#[trigger] s[k].release@)
        && members_of(s, s[k].release@).contains(k as usize) by {
        lemma_members_membership(s, s[k].release@, s.len());
    }
    assert forall|k: int, g1: int, g2: int|
        #![trigger members_of(s, ls[g1]).contains(k as usize), members_of(s, ls[g2]).contains(k as usize)]
        0 <= k < s.len() && 0 <= g1 < ls.len() && 0 <= g2 < ls.len() && members_of(
            s,
            ls[g1],
        ).contains(k as usize) && members_of(s, ls[g2]).contains(k as usize) implies g1 == g2 by {
        lemma_members_membership(s, ls[g1], s.len());
        lemma_members_membership(s, ls[g2], s.len());
        assert(ls[g1] == s[k].release@);
        assert(ls[g2] == s[k].release@);
    }
}

} // verus!
