use crate::catalog::SearchCandidate;
use crate::grouping::{
    contains_text, group, is_grouping_of, members_of, members_upto, release_labels, text_views,
    CandidateGroup,
};
use crate::scorer::{score, score_ge, score_spec, Score};
use vstd::prelude::*;
use vstd::string::*;

verus! {

/// A candidate group with its display label and its similarity to the query.
#[derive(Debug)]
pub struct RankedGroup {
    pub label: String,
    pub release: String,
    pub members: Vec<usize>,
    pub score: Score,
}

/// The mathematical content of a [`RankedGroup`].
pub struct RankedView {
    pub label: Seq<char>,
    pub release: Seq<char>,
    pub members: Seq<usize>,
    pub score: Score,
}

impl View for RankedGroup {
    type V = RankedView;

    open spec fn view(&self) -> RankedView {
        RankedView {
            label: self.label@,
            release: self.release@,
            members: self.members@,
            score: self.score,
        }
    }
}

/// The filtered candidates and their ranked groups; `members` index into `candidates`.
#[derive(Debug)]
pub struct Ranking {
    pub candidates: Vec<SearchCandidate>,
    pub entries: Vec<RankedGroup>,
}

/// The views of a sequence of ranked groups.
pub open spec fn ranked_views(v: Seq<RankedGroup>) -> Seq<RankedView> {
    v.map_values(|e: RankedGroup| e@)
}

/// A language passes the filter when the filter is empty or names it.
pub open spec fn language_allowed(filter: Seq<Seq<char>>, language: Seq<char>) -> bool {
    filter.len() == 0 || filter.contains(language)
}

/// The first `n` candidates that pass the filter, in order.
pub open spec fn kept_upto(s: Seq<SearchCandidate>, filter: Seq<Seq<char>>, n: nat) -> Seq<
    SearchCandidate,
>
    decreases n,
{
    if n == 0 {
        Seq::empty()
    } else {
        let p = kept_upto(s, filter, (n - 1) as nat);
        if language_allowed(filter, s[n - 1].language@) {
            p.push(s[n - 1])
        } else {
            p
        }
    }
}

/// The candidates that pass the filter, in order.
pub open spec fn kept(s: Seq<SearchCandidate>, filter: Seq<Seq<char>>) -> Seq<SearchCandidate> {
    kept_upto(s, filter, s.len())
}

/// The distinct languages of the first `n` members, in member order.
pub open spec fn languages_upto(s: Seq<SearchCandidate>, m: Seq<usize>, n: nat) -> Seq<Seq<char>>
    decreases n,
{
    if n == 0 {
        Seq::empty()
    } else {
        let p = languages_upto(s, m, (n - 1) as nat);
        let l = s[m[n - 1] as int].language@;
        if p.contains(l) {
            p
        } else {
            p.push(l)
        }
    }
}

/// The distinct languages of a group's members, in member order.
pub open spec fn languages_of(s: Seq<SearchCandidate>, m: Seq<usize>) -> Seq<Seq<char>> {
    languages_upto(s, m, m.len())
}

/// The parts joined with `|` between them.
pub open spec fn pipe_joined(parts: Seq<Seq<char>>) -> Seq<char>
    decreases parts.len(),
{
    if parts.len() == 0 {
        Seq::empty()
    } else if parts.len() == 1 {
        parts[0]
    } else {
        pipe_joined(parts.drop_last()) + "|"@ + parts.last()
    }
}

/// `"{release}  [{languages joined by |}]"`.
pub open spec fn display_label(release: Seq<char>, languages: Seq<Seq<char>>) -> Seq<char> {
    release + "  ["@ + pipe_joined(languages) + "]"@
}

/// The ranked entry for the group of label `l` among the candidates `s`.
pub open spec fn entry_view(query: Seq<char>, s: Seq<SearchCandidate>, l: Seq<char>) -> RankedView {
    RankedView {
        label: display_label(l, languages_of(s, members_of(s, l))),
        release: l,
        members: members_of(s, l),
        score: score_spec(query, l),
    }
}

/// The entries of every group of `s`, in grouping order.
pub open spec fn entries_in_group_order(query: Seq<char>, s: Seq<SearchCandidate>) -> Seq<
    RankedView,
> {
    release_labels(s).map_values(|l: Seq<char>| entry_view(query, s, l))
}

/// Inserts `x` into a descending sequence after every entry scoring at least as high.
pub open spec fn insert_desc(s: Seq<RankedView>, x: RankedView) -> Seq<RankedView>
    decreases s.len(),
{
    if s.len() == 0 {
        seq![x]
    } else if score_ge(s.last().score, x.score) {
        s.push(x)
    } else {
        insert_desc(s.drop_last(), x).push(s.last())
    }
}

/// Stable sort by descending score.
pub open spec fn sort_desc(s: Seq<RankedView>) -> Seq<RankedView>
    decreases s.len(),
{
    if s.len() == 0 {
        s
    } else {
        insert_desc(sort_desc(s.drop_last()), s.last())
    }
}

/// The ranked entries for `query` over the already filtered candidates `s`.
pub open spec fn ranked(query: Seq<char>, s: Seq<SearchCandidate>, by_popularity: bool) -> Seq<
    RankedView,
> {
    if by_popularity {
        entries_in_group_order(query, s)
    } else {
        sort_desc(entries_in_group_order(query, s))
    }
}

/// Every member of every entry is below `n`.
pub open spec fn members_below(v: Seq<RankedView>, n: nat) -> bool {
    forall|g: int, k: int|
        0 <= g < v.len() && 0 <= k < v[g].members.len() ==> #[trigger] v[g].members[k] < n
}

proof fn lemma_insert_desc_below(s: Seq<RankedView>, x: RankedView, n: nat)
    requires
        members_below(s, n),
        forall|k: int| 0 <= k < x.members.len() ==> #[trigger] x.members[k] < n,
    ensures
        members_below(insert_desc(s, x), n),
        insert_desc(s, x).len() == s.len() + 1,
    decreases s.len(),
{
    if s.len() > 0 && !score_ge(s.last().score, x.score) {
        let p = s.drop_last();
        assert(members_below(p, n)) by {
            assert forall|g: int, k: int|
                0 <= g < p.len() && 0 <= k < p[g].members.len() implies #[trigger] p[g].members[k]
                < n by {
                assert(p[g] == s[g]);
            }
        }
        lemma_insert_desc_below(p, x, n);
        let q = insert_desc(p, x);
        assert forall|g: int, k: int|
            0 <= g < insert_desc(s, x).len() && 0 <= k < insert_desc(s, x)[g].members.len()
            implies #[trigger] insert_desc(s, x)[g].members[k] < n by {
            if g < q.len() {
                assert(insert_desc(s, x)[g] == q[g]);
            } else {
                assert(insert_desc(s, x)[g] == s[s.len() - 1]);
            }
        }
    } else if s.len() > 0 {
        assert forall|g: int, k: int|
            0 <= g < insert_desc(s, x).len() && 0 <= k < insert_desc(s, x)[g].members.len()
            implies #[trigger] insert_desc(s, x)[g].members[k] < n by {
            if g < s.len() {
                assert(insert_desc(s, x)[g] == s[g]);
            }
        }
    } else {
        assert forall|g: int, k: int|
            0 <= g < insert_desc(s, x).len() && 0 <= k < insert_desc(s, x)[g].members.len()
            implies #[trigger] insert_desc(s, x)[g].members[k] < n by {
            assert(insert_desc(s, x)[g] == x);
        }
    }
}

proof fn lemma_sort_desc_below(s: Seq<RankedView>, n: nat)
    requires
        members_below(s, n),
    ensures
        members_below(sort_desc(s), n),
        sort_desc(s).len() == s.len(),
    decreases s.len(),
{
    if s.len() > 0 {
        let p = s.drop_last();
        assert(members_below(p, n)) by {
            assert forall|g: int, k: int|
                0 <= g < p.len() && 0 <= k < p[g].members.len() implies #[trigger] p[g].members[k]
                < n by {
                assert(p[g] == s[g]);
            }
        }
        lemma_sort_desc_below(p, n);
        let x = s.last();
        assert forall|k: int| 0 <= k < x.members.len() implies #[trigger] x.members[k] < n by {
            assert(s[s.len() - 1].members[k] < n);
        }
        lemma_insert_desc_below(sort_desc(p), x, n);
    }
}

proof fn lemma_group_order_below(query: Seq<char>, s: Seq<SearchCandidate>)
    ensures
        members_below(entries_in_group_order(query, s), s.len()),
{
    let v = entries_in_group_order(query, s);
    assert forall|g: int, k: int|
        0 <= g < v.len() && 0 <= k < v[g].members.len() implies #[trigger] v[g].members[k]
        < s.len() by {
        let l = release_labels(s)[g];
        lemma_members_in_range(s, l, s.len());
        assert(v[g].members == members_upto(s, l, s.len()));
    }
}

proof fn lemma_ranked_in_range(
    query: Seq<char>,
    s: Seq<SearchCandidate>,
    by_popularity: bool,
    entries: Seq<RankedGroup>,
)
    requires
        ranked_views(entries) == ranked(query, s, by_popularity),
    ensures
        forall|g: int, k: int|
            0 <= g < entries.len() && 0 <= k < entries[g].members@.len()
                ==> #[trigger] entries[g].members@[k] < s.len(),
{
    lemma_group_order_below(query, s);
    lemma_sort_desc_below(entries_in_group_order(query, s), s.len());
    let v = ranked_views(entries);
    assert(members_below(v, s.len()));
    assert forall|g: int, k: int|
        0 <= g < entries.len() && 0 <= k < entries[g].members@.len() implies #[trigger] entries[
        g].members@[k] < s.len() by {
        assert(v[g] == entries[g]@);
        assert(v[g].members[k] < s.len());
    }
}

/// Keeps, in order, the candidates whose language passes `language_filter` (all of them
/// when the filter is empty).
pub fn filter_by_language(candidates: Vec<SearchCandidate>, language_filter: &Vec<String>) -> (r:
    Vec<SearchCandidate>)
    ensures
        r@ == kept(candidates@, text_views(language_filter@)),
{
    let ghost orig = candidates@;
    let ghost f = text_views(language_filter@);
    let n = candidates.len();
    let mut rest = candidates;
    let mut out: Vec<SearchCandidate> = Vec::new();
    let mut i: usize = 0;
    while rest.len() > 0
        invariant
            i + rest@.len() == orig.len(),
            orig.len() == n,
            rest@ == orig.skip(i as int),
            out@ == kept_upto(orig, f, i as nat),
            f == text_views(language_filter@),
        decreases rest@.len(),
    {
        let c = rest.remove(0);
        assert(rest@ =~= orig.skip(i + 1));
        let pass = language_filter.len() == 0 || contains_text(language_filter, &c.language);
        if pass {
            out.push(c);
        }
        i += 1;
    }
    assert(orig.skip(i as int).len() == 0);
    out
}

/// The distinct languages of a group's members, in member order.
fn group_languages(candidates: &Vec<SearchCandidate>, members: &Vec<usize>) -> (r: Vec<String>)
    requires
        forall|k: int| 0 <= k < members@.len() ==> members@[k] < candidates@.len(),
    ensures
        text_views(r@) == languages_of(candidates@, members@),
{
    let mut langs: Vec<String> = Vec::new();
    let mut k: usize = 0;
    while k < members.len()
        invariant
            k <= members@.len(),
            forall|j: int| 0 <= j < members@.len() ==> members@[j] < candidates@.len(),
            text_views(langs@) == languages_upto(candidates@, members@, k as nat),
        decreases members@.len() - k,
    {
        let l = &candidates[members[k]].language;
        if !contains_text(&langs, l) {
            langs.push(l.clone());
            assert(text_views(langs@) =~= languages_upto(candidates@, members@, k as nat).push(
                l@,
            ));
        }
        k += 1;
    }
    langs
}

/// `parts` joined with `|` between them.
pub fn join_with_pipe(parts: &Vec<String>) -> (r: String)
    ensures
        r@ == pipe_joined(text_views(parts@)),
{
    let mut out = String::new();
    let mut k: usize = 0;
    while k < parts.len()
        invariant
            k <= parts@.len(),
            out@ == pipe_joined(text_views(parts@).take(k as int)),
        decreases parts@.len() - k,
    {
        proof {
            reveal_strlit("|");
            let t = text_views(parts@);
            assert(t.take(k + 1).drop_last() =~= t.take(k as int));
            if k == 0 {
                assert(pipe_joined(t.take(0)) =~= Seq::<char>::empty());
            }
        }
        if k > 0 {
            out.append("|");
        }
        out.append(parts[k].as_str());
        k += 1;
    }
    assert(text_views(parts@).take(parts@.len() as int) =~= text_views(parts@));
    out
}

proof fn lemma_members_in_range(s: Seq<SearchCandidate>, l: Seq<char>, n: nat)
    requires
        n <= s.len(),
    ensures
        forall|k: int|
            0 <= k < members_upto(s, l, n).len() ==> #[trigger] members_upto(s, l, n)[k] < n,
    decreases n,
{
    if n > 0 {
        lemma_members_in_range(s, l, (n - 1) as nat);
        let p = members_upto(s, l, (n - 1) as nat);
        assert forall|k: int| 0 <= k < members_upto(s, l, n).len() implies #[trigger] members_upto(
            s,
            l,
            n,
        )[k] < n by {
            if k < p.len() {
                assert(p[k] < n - 1);
            }
        }
    }
}

/// The ranked entry of one group: its display label and its score against `query`.
fn make_entry(query: &str, candidates: &Vec<SearchCandidate>, g: CandidateGroup) -> (r:
    RankedGroup)
    requires
        g.members@ == members_of(candidates@, g.release@),
    ensures
        r@ == entry_view(query@, candidates@, g.release@),
{
    proof {
        lemma_members_in_range(candidates@, g.release@, candidates@.len());
    }
    let langs = group_languages(candidates, &g.members);
    let joined = join_with_pipe(&langs);
    let mut label = g.release.clone();
    label.append("  [");
    label.append(joined.as_str());
    label.append("]");
    proof {
        reveal_strlit("  [");
        reveal_strlit("]");
    }
    let s = score(query, g.release.as_str());
    RankedGroup { label, release: g.release, members: g.members, score: s }
}

/// Inserts `x` after every entry of the descending `out` that scores at least as high.
fn insert_by_score(out: &mut Vec<RankedGroup>, x: RankedGroup)
    ensures
        ranked_views(final(out)@) == insert_desc(ranked_views(old(out)@), x@),
{
    let ghost v = ranked_views(out@);
    let mut pos: usize = out.len();
    let mut found = false;
    proof {
        assert(v.take(pos as int) =~= v);
        assert(v.skip(pos as int) =~= Seq::<RankedView>::empty());
        assert(insert_desc(v, x@) =~= insert_desc(v.take(pos as int), x@) + v.skip(pos as int));
    }
    while pos > 0 && !found
        invariant
            pos <= out@.len(),
            v == ranked_views(out@),
            insert_desc(v, x@) == insert_desc(v.take(pos as int), x@) + v.skip(pos as int),
            found ==> pos > 0 && score_ge(v[pos - 1].score, x.score),
        decreases pos, if found {
            0int
        } else {
            1int
        },
    {
        if out[pos - 1].score.at_least(&x.score) {
            found = true;
        } else {
            proof {
                let t = v.take(pos as int);
                assert(t.drop_last() =~= v.take(pos - 1));
                assert(t.last() == v[pos - 1]);
                assert(insert_desc(t, x@) == insert_desc(v.take(pos - 1), x@).push(v[pos - 1]));
                assert(insert_desc(v.take(pos - 1), x@).push(v[pos - 1]) + v.skip(pos as int)
                    =~= insert_desc(v.take(pos - 1), x@) + v.skip(pos - 1));
            }
            pos -= 1;
        }
    }
    proof {
        if pos == 0 {
            assert(v.take(0) =~= Seq::<RankedView>::empty());
        } else {
            assert(v.take(pos as int).last() == v[pos - 1]);
        }
        assert(insert_desc(v.take(pos as int), x@) =~= v.take(pos as int).push(x@));
        assert(v.take(pos as int).push(x@) + v.skip(pos as int) =~= v.insert(pos as int, x@));
    }
    out.insert(pos, x);
    assert(ranked_views(out@) =~= v.insert(pos as int, x@));
}

/// Stable sort by descending score: entries of equal score keep their order.
pub fn sort_by_score(items: Vec<RankedGroup>) -> (r: Vec<RankedGroup>)
    ensures
        ranked_views(r@) == sort_desc(ranked_views(items@)),
{
    let ghost orig = items@;
    let ghost v = ranked_views(items@);
    let n = items.len();
    let mut rest = items;
    let mut out: Vec<RankedGroup> = Vec::new();
    let mut i: usize = 0;
    proof {
        assert(v.take(0) =~= Seq::<RankedView>::empty());
        assert(ranked_views(out@) =~= Seq::<RankedView>::empty());
    }
    while rest.len() > 0
        invariant
            i + rest@.len() == orig.len(),
            orig.len() == n,
            v == ranked_views(orig),
            rest@ == orig.skip(i as int),
            ranked_views(out@) == sort_desc(v.take(i as int)),
        decreases rest@.len(),
    {
        let x = rest.remove(0);
        assert(rest@ =~= orig.skip(i + 1));
        proof {
            assert(v.take(i + 1).drop_last() =~= v.take(i as int));
            assert(v.take(i + 1).last() == x@);
        }
        insert_by_score(&mut out, x);
        i += 1;
    }
    assert(orig.skip(i as int).len() == 0);
    assert(v.take(i as int) =~= v);
    out
}

/// Ranks catalog results against `query`: drops the candidates whose language fails
/// `language_filter` (none when it is empty), groups the rest by release label, labels
/// each group, and unless `by_popularity` is set orders the groups by descending
/// similarity, keeping grouping order among equal scores.
pub fn rank(
    query: &str,
    candidates: Vec<SearchCandidate>,
    language_filter: &Vec<String>,
    by_popularity: bool,
) -> (r: Ranking)
    ensures
        r.candidates@ == kept(candidates@, text_views(language_filter@)),
        ranked_views(r.entries@) == ranked(query@, r.candidates@, by_popularity),
        r.well_formed(),
{
    let kept_candidates = filter_by_language(candidates, language_filter);
    let mut groups = group(&kept_candidates);
    let ghost s = kept_candidates@;
    let ghost labels = release_labels(s);
    assert(is_grouping_of(groups@, s));
    let n = groups.len();
    let mut entries: Vec<RankedGroup> = Vec::new();
    let mut i: usize = 0;
    let ghost all = groups@;
    assert(ranked_views(entries@) =~= entries_in_group_order(query@, s).take(0));
    while groups.len() > 0
        invariant
            s == kept_candidates@,
            i + groups@.len() == labels.len(),
            labels == release_labels(s),
            labels.len() == n,
            is_grouping_of(all, s),
            groups@ == all.skip(i as int),
            ranked_views(entries@) =~= entries_in_group_order(query@, s).take(i as int),
        decreases groups@.len(),
    {
        let g = groups.remove(0);
        assert(g == all[i as int]);
        assert(groups@ =~= all.skip(i + 1));
        let e = make_entry(query, &kept_candidates, g);
        entries.push(e);
        assert(entries_in_group_order(query@, s).len() == labels.len());
        assert(entries_in_group_order(query@, s)[i as int] == entry_view(query@, s, labels[i as int]));
        assert(entries_in_group_order(query@, s).take(i + 1) =~= entries_in_group_order(query@, s).take(i as int).push(e@));
        i += 1;
    }
    assert(entries_in_group_order(query@, s).take(i as int) =~= entries_in_group_order(query@, s));
    let entries = if by_popularity {
        entries
    } else {
        sort_by_score(entries)
    };
    proof {
        lemma_ranked_in_range(query@, s, by_popularity, entries@);
    }
    Ranking { candidates: kept_candidates, entries }
}

} // verus!

verus! {

/// Ranking depends on nothing but its inputs: the same query over the same candidates and
/// filter, in the same mode, yields the same entries in the same order.
pub proof fn lemma_ranking_deterministic(
    query: Seq<char>,
    s1: Seq<SearchCandidate>,
    s2: Seq<SearchCandidate>,
    filter: Seq<Seq<char>>,
    by_popularity: bool,
)
    requires
        s1 == s2,
    ensures
        kept(s1, filter) == kept(s2, filter),
        ranked(query, kept(s1, filter), by_popularity) == ranked(
            query,
            kept(s2, filter),
            by_popularity,
        ),
{
}

} // verus!

verus! {

/// Each entry scores at least as high as every later one.
pub open spec fn descending(v: Seq<RankedView>) -> bool {
    forall|i: int, j: int| 0 <= i < j < v.len() ==> score_ge(#[trigger] v[i].score, #[trigger] v[j].score)
}

/// Every score has a positive denominator.
pub open spec fn positive_lengths(v: Seq<RankedView>) -> bool {
    forall|i: int| 0 <= i < v.len() ==> #[trigger] v[i].score.length > 0
}

proof fn lemma_score_ge_transitive(a: Score, b: Score, c: Score)
    requires
        a.length > 0,
        b.length > 0,
        c.length > 0,
        score_ge(a, b),
        score_ge(b, c),
    ensures
        score_ge(a, c),
{
    let (am, al, bm, bl, cm, cl) = (
        a.matching as int,
        a.length as int,
        b.matching as int,
        b.length as int,
        c.matching as int,
        c.length as int,
    );
    assert(am * cl >= cm * al) by (nonlinear_arith)
        requires
            al > 0,
            bl > 0,
            cl > 0,
            am >= 0,
            bm >= 0,
            cm >= 0,
            am * bl >= bm * al,
            bm * cl >= cm * bl,
    {
        assert(am * bl * cl >= bm * al * cl);
        assert(bm * cl * al >= cm * bl * al);
        assert(am * cl * bl >= cm * al * bl);
    }
}

proof fn lemma_insert_desc_sorted(s: Seq<RankedView>, x: RankedView)
    requires
        descending(s),
        positive_lengths(s),
        x.score.length > 0,
    ensures
        insert_desc(s, x).len() == s.len() + 1,
        forall|i: int|
            0 <= i < insert_desc(s, x).len() ==> #[trigger] insert_desc(s, x)[i] == x || exists|
                k: int,
            |
                0 <= k < s.len() && insert_desc(s, x)[i] == s[k],
        positive_lengths(insert_desc(s, x)),
        descending(insert_desc(s, x)),
    decreases s.len(),
{
    let r = insert_desc(s, x);
    if s.len() == 0 {
    } else if score_ge(s.last().score, x.score) {
        assert forall|i: int| 0 <= i < r.len() implies #[trigger] r[i] == x || exists|k: int|
            0 <= k < s.len() && r[i] == s[k] by {
            if i < s.len() {
                assert(r[i] == s[i]);
            }
        }
        assert forall|i: int, j: int| 0 <= i < j < r.len() implies score_ge(
            #[trigger] r[i].score,
            #[trigger] r[j].score,
        ) by {
            if j == s.len() {
                assert(r[i] == s[i]);
                if i < s.len() - 1 {
                    lemma_score_ge_transitive(s[i].score, s.last().score, x.score);
                }
            } else {
                assert(r[i] == s[i] && r[j] == s[j]);
            }
        }
    } else {
        let p = s.drop_last();
        assert(descending(p)) by {
            assert forall|i: int, j: int| 0 <= i < j < p.len() implies score_ge(
                #[trigger] p[i].score,
                #[trigger] p[j].score,
            ) by {
                assert(p[i] == s[i] && p[j] == s[j]);
            }
        }
        assert(positive_lengths(p)) by {
            assert forall|i: int| 0 <= i < p.len() implies #[trigger] p[i].score.length > 0 by {
                assert(p[i] == s[i]);
            }
        }
        lemma_insert_desc_sorted(p, x);
        let q = insert_desc(p, x);
        let last = s.last();
        assert(r == q.push(last));
        assert forall|i: int| 0 <= i < r.len() implies #[trigger] r[i] == x || exists|k: int|
            0 <= k < s.len() && r[i] == s[k] by {
            if i < q.len() {
                assert(r[i] == q[i]);
                if q[i] != x {
                    let k = choose|k: int| 0 <= k < p.len() && q[i] == p[k];
                    assert(s[k] == p[k]);
                }
            } else {
                assert(r[i] == s[s.len() - 1]);
            }
        }
        assert forall|i: int, j: int| 0 <= i < j < r.len() implies score_ge(
            #[trigger] r[i].score,
            #[trigger] r[j].score,
        ) by {
            if j < q.len() {
                assert(r[i] == q[i] && r[j] == q[j]);
            } else {
                assert(r[i] == q[i]);
                assert(r[j] == last);
                if q[i] != x {
                    let k = choose|k: int| 0 <= k < p.len() && q[i] == p[k];
                    assert(s[k] == p[k]);
                    assert(score_ge(s[k].score, s[s.len() - 1].score));
                }
            }
        }
        assert forall|i: int| 0 <= i < r.len() implies #[trigger] r[i].score.length > 0 by {
            if i < q.len() {
                assert(r[i] == q[i]);
            } else {
                assert(r[i] == s[s.len() - 1]);
            }
        }
    }
}

proof fn lemma_sort_desc_sorted(s: Seq<RankedView>)
    requires
        positive_lengths(s),
    ensures
        sort_desc(s).len() == s.len(),
        positive_lengths(sort_desc(s)),
        descending(sort_desc(s)),
    decreases s.len(),
{
    if s.len() > 0 {
        let p = s.drop_last();
        assert(positive_lengths(p)) by {
            assert forall|i: int| 0 <= i < p.len() implies #[trigger] p[i].score.length > 0 by {
                assert(p[i] == s[i]);
            }
        }
        lemma_sort_desc_sorted(p);
        assert(s.last().score.length > 0) by {
            assert(s[s.len() - 1].score.length > 0);
        }
        lemma_insert_desc_sorted(sort_desc(p), s.last());
    }
}

/// In the default order, ranked entries descend by similarity score: no entry is
/// followed by one that scores strictly higher.
pub proof fn lemma_ranking_descending(query: Seq<char>, s: Seq<SearchCandidate>)
    requires
        query.len() <= usize::MAX,
        forall|k: int| 0 <= k < s.len() ==> (#[trigger] s[k].release@).len() <= usize::MAX,
    ensures
        descending(ranked(query, s, false)),
{
    let v = entries_in_group_order(query, s);
    crate::grouping::lemma_labels_distinct_and_complete(s, s.len());
    assert forall|i: int| 0 <= i < v.len() implies #[trigger] v[i].score.length > 0 by {
        let l = release_labels(s)[i];
        assert(release_labels(s).contains(l));
        let k = choose|k: int| 0 <= k < s.len() && s[k].release@ == l;
        assert(l.len() <= usize::MAX);
    }
    lemma_sort_desc_sorted(v);
}

} // verus!
