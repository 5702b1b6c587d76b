use vstd::prelude::*;

verus! {

/// The fuzzy-match score of the query `query` against the text `doc`, as
/// `nucleo_matcher` computes it: `None` when some word of the query does not
/// match.
pub uninterp spec fn fuzzy_score(query: Seq<char>, doc: Seq<char>) -> Option<u32>;

/// Scores `doc` against `query` with `nucleo_matcher`: the query is parsed
/// by `Pattern::parse`, ignoring case and normalizing smartly, and the
/// pattern scored by `Pattern::score` against the text with a matcher of
/// the default configuration. The result depends on the two texts alone
/// and is named `fuzzy_score`; nothing more is stated of it.
#[verifier::external_body]
fn nucleo_score(query: &str, doc: &str) -> (s: Option<u32>)
    ensures
        s == fuzzy_score(query@, doc@),
{
    let pattern = nucleo_matcher::pattern::Pattern::parse(
        query,
        nucleo_matcher::pattern::CaseMatching::Ignore,
        nucleo_matcher::pattern::Normalization::Smart,
    );
    let mut buf = Vec::new();
    pattern.score(
        nucleo_matcher::Utf32Str::new(doc, &mut buf),
        &mut nucleo_matcher::Matcher::default(),
    )
}

/// A missing score counts as 0.
pub open spec fn score_of(scores: Seq<Option<u32>>, i: int) -> u32 {
    match scores[i] {
        Some(s) => s,
        None => 0,
    }
}

/// Document `a` ranks before document `b`: a higher score, or the same
/// score and an earlier place.
pub open spec fn ranks_before(scores: Seq<Option<u32>>, a: int, b: int) -> bool {
    score_of(scores, a) > score_of(scores, b) || (score_of(scores, a) == score_of(scores, b) && a
        < b)
}

/// `order` lists, each once, the documents that scored above 0, best first
/// and, among equal scores, in the order they were given.
pub open spec fn is_ranking(scores: Seq<Option<u32>>, order: Seq<usize>) -> bool {
    &&& forall|k: int| 0 <= k < order.len() ==> #[trigger] order[k] < scores.len()
    &&& forall|i: int|
        0 <= i < scores.len() ==> (score_of(scores, i) > 0 <==> order.contains(i as usize))
    &&& forall|k: int, l: int|
        0 <= k < l < order.len() ==> ranks_before(scores, #[trigger] order[k] as int, #[trigger] order[l] as int)
}

/// The places of the documents that scored above 0, best first; equal
/// scores keep the order they were given.
pub fn rank_order(scores: &Vec<Option<u32>>) -> (order: Vec<usize>)
    ensures
        is_ranking(scores@, order@),
{
    let n = scores.len();
    let mut order: Vec<usize> = Vec::new();
    let mut i: usize = 0;
    while i < n
        invariant
            n == scores@.len(),
            i <= n,
            forall|k: int| 0 <= k < order@.len() ==> #[trigger] order@[k] < i,
            forall|t: int|
                0 <= t < i ==> (score_of(scores@, t) > 0 <==> order@.contains(t as usize)),
            forall|k: int, l: int|
                0 <= k < l < order@.len() ==> ranks_before(
                    scores@,
                    #[trigger] order@[k] as int,
                    #[trigger] order@[l] as int,
                ),
        decreases n - i,
    {
        let s = match scores[i] {
            Some(v) => v,
            None => 0,
        };
        if s > 0 {
            let mut j = order.len();
            let mut done = false;
            while j > 0 && !done
                invariant
                    n == scores@.len(),
                    i < n,
                    s == score_of(scores@, i as int),
                    j <= order@.len(),
                    forall|k: int| 0 <= k < order@.len() ==> #[trigger] order@[k] < i,
                    forall|k: int| j <= k < order@.len() ==> score_of(scores@, #[trigger] order@[k] as int) < s,
                    done ==> j > 0 && score_of(scores@, order@[j - 1] as int) >= s,
                decreases j + (if done { 0int } else { 1int }),
            {
                let prev = match scores[order[j - 1]] {
                    Some(v) => v,
                    None => 0,
                };
                if prev < s {
                    j = j - 1;
                } else {
                    done = true;
                }
            }
            let ghost before = order@;
            order.insert(j, i);
            proof {
                before.insert_ensures(j as int, i);
                assert forall|k: int| 0 <= k < order@.len() implies #[trigger] order@[k] < i + 1 by {
                    if k < j {
                        assert(order@[k] == before[k]);
                    } else if k > j {
                        assert(order@[k] == before[k - 1]);
                    }
                }
                assert forall|t: int| 0 <= t < i + 1 implies (score_of(scores@, t) > 0
                    <==> order@.contains(t as usize)) by {
                    if t < i {
                        if before.contains(t as usize) {
                            let k = choose|k: int| 0 <= k < before.len() && before[k] == t as usize;
                            if k < j {
                                assert(order@[k] == before[k]);
                            } else {
                                assert(order@[k + 1] == before[k]);
                            }
                        }
                        if order@.contains(t as usize) {
                            let k = choose|k: int| 0 <= k < order@.len() && order@[k] == t as usize;
                            if k < j {
                                assert(before[k] == order@[k]);
                            } else if k > j {
                                assert(before[k - 1] == order@[k]);
                            }
                        }
                    } else {
                        assert(order@[j as int] == i);
                    }
                }
                assert forall|k: int, l: int| 0 <= k < l < order@.len() implies ranks_before(
                    scores@,
                    #[trigger] order@[k] as int,
                    #[trigger] order@[l] as int,
                ) by {
                    if l < j {
                        assert(order@[k] == before[k] && order@[l] == before[l]);
                    } else if k > j {
                        assert(order@[k] == before[k - 1] && order@[l] == before[l - 1]);
                    } else if l == j {
                        assert(order@[k] == before[k]);
                        assert(ranks_before(scores@, before[k] as int, before[j - 1] as int) || k == j - 1);
                    } else if k == j {
                        assert(order@[l] == before[l - 1]);
                    } else {
                        assert(order@[k] == before[k] && order@[l] == before[l - 1]);
                    }
                }
            }
        } else {
            proof {
                assert(!order@.contains(i));
            }
        }
        i = i + 1;
    }
    order
}

/// Ranks documents against a query: with an empty query every document
/// is kept, in the order given; otherwise the places of the documents whose
/// `fuzzy_score` is above 0, best first, equal scores in the order the
/// documents were given.
pub fn rank_documents(query: &str, docs: &Vec<String>) -> (order: Vec<usize>)
    ensures
        query@.len() == 0 ==> order@ == Seq::new(docs@.len(), |i: int| i as usize),
        query@.len() != 0 ==> is_ranking(
            docs@.map_values(|d: String| fuzzy_score(query@, d@)),
            order@,
        ),
{
    if query.unicode_len() == 0 {
        let mut all: Vec<usize> = Vec::new();
        let mut i: usize = 0;
        while i < docs.len()
            invariant
                i <= docs@.len(),
                all@ == Seq::new(i as nat, |k: int| k as usize),
            decreases docs.len() - i,
        {
            all.push(i);
            assert(all@ =~= Seq::new((i + 1) as nat, |k: int| k as usize));
            i = i + 1;
        }
        return all;
    }
    let mut scores: Vec<Option<u32>> = Vec::new();
    let mut i: usize = 0;
    while i < docs.len()
        invariant
            i <= docs@.len(),
            scores@ == docs@.take(i as int).map_values(|d: String| fuzzy_score(query@, d@)),
        decreases docs.len() - i,
    {
        let s = nucleo_score(query, docs[i].as_str());
        scores.push(s);
        assert(docs@.take(i + 1).map_values(|d: String| fuzzy_score(query@, d@)) =~= docs@.take(
            i as int,
        ).map_values(|d: String| fuzzy_score(query@, d@)).push(s));
        i = i + 1;
    }
    assert(docs@.take(docs@.len() as int) =~= docs@);
    rank_order(&scores)
}

/// `ranks_before` is a strict order: never both ways, never of a document
/// with itself.
proof fn lemma_ranks_before_strict(scores: Seq<Option<u32>>, a: int, b: int)
    ensures
        !(ranks_before(scores, a, b) && ranks_before(scores, b, a)),
        !ranks_before(scores, a, a),
{
}

/// Two rankings of the same scores agree on their first `i` places.
proof fn lemma_rankings_prefix(scores: Seq<Option<u32>>, a: Seq<usize>, b: Seq<usize>, i: int)
    requires
        is_ranking(scores, a),
        is_ranking(scores, b),
        0 <= i <= a.len(),
        i <= b.len(),
    ensures
        forall|k: int| 0 <= k < i ==> a[k] == b[k],
    decreases i,
{
    if i > 0 {
        lemma_rankings_prefix(scores, a, b, i - 1);
        let t = i - 1;
        let x = a[t];
        let y = b[t];
        assert(x < scores.len() && y < scores.len());
        assert(a.contains(x));
        assert(score_of(scores, x as int) > 0);
        assert(b.contains(x));
        let j = choose|j: int| 0 <= j < b.len() && b[j] == x;
        assert(score_of(scores, y as int) > 0) by {
            assert(b.contains(y));
        }
        assert(a.contains(y));
        let jj = choose|j: int| 0 <= j < a.len() && a[j] == y;
        if j < t {
            assert(a[j] == b[j]);
            lemma_ranks_before_strict(scores, x as int, x as int);
        }
        if jj < t {
            assert(a[jj] == b[jj]);
            lemma_ranks_before_strict(scores, y as int, y as int);
        }
        if j > t && jj > t {
            assert(ranks_before(scores, y as int, x as int));
            assert(ranks_before(scores, x as int, y as int));
            lemma_ranks_before_strict(scores, x as int, y as int);
        }
    }
}

/// A ranking is determined by the scores: two rankings of the same scores
/// are the same list.
pub proof fn law_ranking_unique(scores: Seq<Option<u32>>, a: Seq<usize>, b: Seq<usize>)
    requires
        is_ranking(scores, a),
        is_ranking(scores, b),
    ensures
        a == b,
{
    if a.len() <= b.len() {
        lemma_rankings_prefix(scores, a, b, a.len() as int);
        if a.len() < b.len() {
            let y = b[a.len() as int];
            assert(score_of(scores, y as int) > 0) by {
                assert(b.contains(y));
            }
            assert(a.contains(y));
            let j = choose|j: int| 0 <= j < a.len() && a[j] == y;
            assert(b[j] == y);
            lemma_ranks_before_strict(scores, y as int, y as int);
        }
    } else {
        lemma_rankings_prefix(scores, a, b, b.len() as int);
        let x = a[b.len() as int];
        assert(score_of(scores, x as int) > 0) by {
            assert(a.contains(x));
        }
        assert(b.contains(x));
        let j = choose|j: int| 0 <= j < b.len() && b[j] == x;
        assert(a[j] == x);
        lemma_ranks_before_strict(scores, x as int, x as int);
    }
    assert(a =~= b);
}

} // verus!
