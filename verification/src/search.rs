//! The search session: a state machine holding the live query, the ranked
//! match set derived from it, and a bounded navigation cursor.
//!
//! The match set is recomputed from the full candidate list whenever the
//! query changes: candidates whose score is zero are dropped and the rest
//! are ordered by descending score, ties broken by original candidate order.
//! Every query-editing operation recomputes the match set and resets the
//! cursor to the top. Navigation cycles over the first
//! `min(visible-row count, number of matches)` entries only, modelling a
//! fixed-height visible list where only on-screen rows are reachable.

use crate::config::Configuration;
use crate::score::score;
use crate::score::spec_score_den;
use crate::score::spec_score_num;
use vstd::prelude::*;

verus! {

/// Inserts candidate `x` into the ranked list `s`: it goes after every
/// entry whose score is at least as high — that is, whose denominator is no
/// larger, all retained entries sharing one numerator — so that equal scores
/// keep their original relative order.
pub open spec fn rank_insert(s: Seq<Seq<char>>, q: Seq<char>, x: Seq<char>) -> Seq<Seq<char>>
    decreases s.len(),
{
    if s.len() == 0 {
        seq![x]
    } else if spec_score_den(s[0], q) <= spec_score_den(x, q) {
        seq![s[0]] + rank_insert(s.drop_first(), q, x)
    } else {
        seq![x] + s
    }
}

/// The ranked match set for query `q` over the candidates `cs`, in order:
/// candidates with score zero are dropped, the rest are sorted by descending
/// score, and exact ties keep their original input order.
pub open spec fn spec_matches(cs: Seq<Seq<char>>, q: Seq<char>) -> Seq<Seq<char>>
    decreases cs.len(),
{
    if cs.len() == 0 {
        Seq::empty()
    } else {
        let prev = spec_matches(cs.drop_last(), q);
        if spec_score_num(cs.last(), q) > 0 {
            rank_insert(prev, q, cs.last())
        } else {
            prev
        }
    }
}

/// Inserting right before the first entry with a strictly larger
/// denominator realises `rank_insert` as a splice at that position.
proof fn lemma_rank_insert_at(s: Seq<Seq<char>>, q: Seq<char>, x: Seq<char>, idx: int)
    requires
        0 <= idx <= s.len(),
        forall|t: int| 0 <= t < idx ==> spec_score_den(#[trigger] s[t], q) <= spec_score_den(x, q),
        idx < s.len() ==> spec_score_den(s[idx], q) > spec_score_den(x, q),
    ensures
        rank_insert(s, q, x) == s.take(idx) + seq![x] + s.skip(idx),
    decreases idx,
{
    if idx == 0 {
        if s.len() == 0 {
            assert(rank_insert(s, q, x) =~= s.take(0) + seq![x] + s.skip(0));
        } else {
            assert(rank_insert(s, q, x) =~= s.take(0) + seq![x] + s.skip(0));
        }
    } else {
        let rest = s.drop_first();
        assert forall|t: int| 0 <= t < idx - 1 implies spec_score_den(#[trigger] rest[t], q)
            <= spec_score_den(x, q) by {
            assert(rest[t] == s[t + 1]);
        }
        lemma_rank_insert_at(rest, q, x, idx - 1);
        assert(seq![s[0]] + (rest.take(idx - 1) + seq![x] + rest.skip(idx - 1)) =~= s.take(idx)
            + seq![x] + s.skip(idx));
    }
}

/// Applies the scorer to every candidate, discards the non-matches, and
/// ranks the survivors by descending score, keeping ties in input order.
fn compute_matches(choices: &Vec<String>, query: &str) -> (m: Vec<String>)
    ensures
        m.deep_view() == spec_matches(choices.deep_view(), query@),
{
    let ghost cs = choices.deep_view();
    let mut out: Vec<String> = Vec::new();
    let mut dens: Vec<u128> = Vec::new();
    let mut k: usize = 0;
    while k < choices.len()
        invariant
            k <= choices.len(),
            cs == choices.deep_view(),
            cs.len() == choices@.len(),
            dens@.len() == out@.len(),
            out.deep_view() == spec_matches(cs.take(k as int), query@),
            forall|t: int|
                0 <= t < out@.len() ==> #[trigger] dens@[t] as int == spec_score_den(
                    out.deep_view()[t],
                    query@,
                ),
        decreases choices@.len() - k,
    {
        let sc = score(choices[k].as_str(), query);
        proof {
            assert(cs[k as int] == choices@[k as int]@);
            assert(cs.take(k + 1).drop_last() =~= cs.take(k as int));
            assert(cs.take(k + 1).last() == cs[k as int]);
        }
        if sc.num > 0 {
            let ghost prev = out.deep_view();
            let mut idx: usize = 0;
            while idx < dens.len() && dens[idx] <= sc.den
                invariant
                    k < cs.len(),
                    idx <= dens@.len(),
                    dens@.len() == out@.len(),
                    forall|t: int| 0 <= t < idx ==> #[trigger] dens@[t] <= sc.den,
                    forall|t: int|
                        0 <= t < out@.len() ==> #[trigger] dens@[t] as int == spec_score_den(
                            out.deep_view()[t],
                            query@,
                        ),
                    sc.den as int == spec_score_den(cs[k as int], query@),
                decreases dens@.len() - idx,
            {
                idx = idx + 1;
            }
            proof {
                assert forall|t: int| 0 <= t < idx implies spec_score_den(#[trigger] prev[t], query@)
                    <= spec_score_den(cs[k as int], query@) by {
                    assert(dens@[t] <= sc.den);
                    assert(dens@[t] as int == spec_score_den(prev[t], query@));
                }
                lemma_rank_insert_at(prev, query@, cs[k as int], idx as int);
            }
            let chosen = choices[k].clone();
            out.insert(idx, chosen);
            dens.insert(idx, sc.den);
            proof {
                assert(out.deep_view() =~= prev.take(idx as int) + seq![cs[k as int]] + prev.skip(
                    idx as int,
                ));
                assert forall|t: int|
                    0 <= t < out@.len() implies #[trigger] dens@[t] as int == spec_score_den(
                    out.deep_view()[t],
                    query@,
                ) by {
                    if t < idx {
                        assert(out.deep_view()[t] == prev[t]);
                    } else if t > idx {
                        assert(out.deep_view()[t] == prev[t - 1]);
                    }
                }
            }
        }
        k = k + 1;
    }
    proof {
        assert(cs.take(choices@.len() as int) =~= cs);
    }
    out
}

/// The ranked list is ordered by ascending denominator; with the shared
/// numerator this is descending score.
spec fn sorted_by_den(s: Seq<Seq<char>>, q: Seq<char>) -> bool {
    forall|i: int, j: int|
        0 <= i <= j < s.len() ==> spec_score_den(#[trigger] s[i], q) <= spec_score_den(
            #[trigger] s[j],
            q,
        )
}

/// `rank_insert` keeps the list ordered, adds exactly the new candidate,
/// and loses nothing.
proof fn lemma_rank_insert_props(s: Seq<Seq<char>>, q: Seq<char>, x: Seq<char>)
    requires
        sorted_by_den(s, q),
    ensures
        rank_insert(s, q, x).len() == s.len() + 1,
        sorted_by_den(rank_insert(s, q, x), q),
        forall|t: int|
            0 <= t < rank_insert(s, q, x).len() ==> (#[trigger] rank_insert(s, q, x)[t] == x
                || s.contains(rank_insert(s, q, x)[t])),
        forall|y: Seq<char>| s.contains(y) ==> rank_insert(s, q, x).contains(y),
        rank_insert(s, q, x).contains(x),
    decreases s.len(),
{
    let r = rank_insert(s, q, x);
    if s.len() == 0 {
        assert(r[0] == x);
    } else if spec_score_den(s[0], q) <= spec_score_den(x, q) {
        let rest = s.drop_first();
        assert forall|i: int, j: int|
            0 <= i <= j < rest.len() implies spec_score_den(#[trigger] rest[i], q)
            <= spec_score_den(#[trigger] rest[j], q) by {
            assert(rest[i] == s[i + 1]);
            assert(rest[j] == s[j + 1]);
        }
        lemma_rank_insert_props(rest, q, x);
        let rr = rank_insert(rest, q, x);
        assert(r =~= seq![s[0]] + rr);
        assert forall|t: int| 0 <= t < r.len() implies (#[trigger] r[t] == x || s.contains(
            r[t],
        )) by {
            if t == 0 {
                assert(s[0] == s[0]);
                assert(s.contains(s[0]));
            } else {
                assert(r[t] == rr[t - 1]);
                if rr[t - 1] != x {
                    assert(rest.contains(rr[t - 1]));
                    let u = choose|u: int| 0 <= u < rest.len() && rest[u] == rr[t - 1];
                    assert(s[u + 1] == rr[t - 1]);
                    assert(s.contains(rr[t - 1]));
                }
            }
        }
        assert forall|i: int, j: int|
            0 <= i <= j < r.len() implies spec_score_den(#[trigger] r[i], q) <= spec_score_den(
            #[trigger] r[j],
            q,
        ) by {
            if i == 0 && j > 0 {
                assert(r[j] == rr[j - 1]);
                if rr[j - 1] == x {
                } else {
                    assert(rest.contains(rr[j - 1]));
                    let u = choose|u: int| 0 <= u < rest.len() && rest[u] == rr[j - 1];
                    assert(rest[u] == s[u + 1]);
                    assert(spec_score_den(s[0], q) <= spec_score_den(s[u + 1], q));
                }
            } else if i > 0 {
                assert(r[i] == rr[i - 1]);
                assert(r[j] == rr[j - 1]);
            }
        }
        assert forall|y: Seq<char>| s.contains(y) implies r.contains(y) by {
            let u = choose|u: int| 0 <= u < s.len() && s[u] == y;
            if u == 0 {
                assert(r[0] == y);
            } else {
                assert(rest[u - 1] == y);
                assert(rest.contains(y));
                assert(rr.contains(y));
                let v = choose|v: int| 0 <= v < rr.len() && rr[v] == y;
                assert(r[v + 1] == y);
            }
        }
        let v = choose|v: int| 0 <= v < rr.len() && rr[v] == x;
        assert(r[v + 1] == x);
    } else {
        assert(r =~= seq![x] + s);
        assert forall|i: int, j: int|
            0 <= i <= j < r.len() implies spec_score_den(#[trigger] r[i], q) <= spec_score_den(
            #[trigger] r[j],
            q,
        ) by {
            if i == 0 && j > 0 {
                assert(r[j] == s[j - 1]);
                assert(spec_score_den(s[0], q) <= spec_score_den(s[j - 1], q));
            } else if i > 0 {
                assert(r[i] == s[i - 1]);
                assert(r[j] == s[j - 1]);
            }
        }
        assert forall|t: int| 0 <= t < r.len() implies (#[trigger] r[t] == x || s.contains(
            r[t],
        )) by {
            if t > 0 {
                assert(r[t] == s[t - 1]);
                assert(s.contains(s[t - 1]));
            }
        }
        assert forall|y: Seq<char>| s.contains(y) implies r.contains(y) by {
            let u = choose|u: int| 0 <= u < s.len() && s[u] == y;
            assert(r[u + 1] == y);
        }
        assert(r[0] == x);
    }
}

/// The law of the match set builder: the ranked match set holds exactly the
/// candidates with a positive score, ordered by descending score. (Ties
/// keep their input order; which order the builder picks is pinned down by
/// `spec_matches` itself.)
pub proof fn lemma_matches_ranked(cs: Seq<Seq<char>>, q: Seq<char>)
    ensures
        forall|i: int, j: int|
            0 <= i <= j < spec_matches(cs, q).len() ==> crate::score::score_at_least(
                #[trigger] spec_matches(cs, q)[i],
                #[trigger] spec_matches(cs, q)[j],
                q,
            ),
        forall|t: int|
            0 <= t < spec_matches(cs, q).len() ==> cs.contains(#[trigger] spec_matches(cs, q)[t])
                && spec_score_num(spec_matches(cs, q)[t], q) > 0,
        forall|x: Seq<char>|
            cs.contains(x) && spec_score_num(x, q) > 0 ==> spec_matches(cs, q).contains(x),
    decreases cs.len(),
{
    let r = spec_matches(cs, q);
    lemma_matches_sorted_by_den(cs, q);
    assert forall|i: int, j: int|
        0 <= i <= j < r.len() implies crate::score::score_at_least(
        #[trigger] r[i],
        #[trigger] r[j],
        q,
    ) by {
        let n1 = spec_score_num(r[i], q);
        let n2 = spec_score_num(r[j], q);
        let d1 = spec_score_den(r[i], q);
        let d2 = spec_score_den(r[j], q);
        assert(n1 == n2);
        assert(n1 * d2 >= n2 * d1) by (nonlinear_arith)
            requires
                n1 == n2,
                n1 >= 0,
                d1 <= d2,
        ;
    }
}

/// `rank_insert` adds exactly one occurrence of the new candidate and keeps
/// every other occurrence.
proof fn lemma_rank_insert_multiset(s: Seq<Seq<char>>, q: Seq<char>, x: Seq<char>)
    ensures
        rank_insert(s, q, x).to_multiset() == s.to_multiset().insert(x),
    decreases s.len(),
{
    broadcast use vstd::seq_lib::group_to_multiset_ensures;

    if s.len() == 0 {
        assert(rank_insert(s, q, x) =~= s.push(x));
    } else if spec_score_den(s[0], q) <= spec_score_den(x, q) {
        let rest = s.drop_first();
        lemma_rank_insert_multiset(rest, q, x);
        let rr = rank_insert(rest, q, x);
        assert(rank_insert(s, q, x) =~= rr.insert(0, s[0]));
        vstd::seq_lib::to_multiset_insert(rr, 0, s[0]);
        assert(s =~= rest.insert(0, s[0]));
        vstd::seq_lib::to_multiset_insert(rest, 0, s[0]);
        assert(rest.to_multiset().insert(x).insert(s[0]) =~= rest.to_multiset().insert(
            s[0],
        ).insert(x));
    } else {
        assert(rank_insert(s, q, x) =~= s.insert(0, x));
        vstd::seq_lib::to_multiset_insert(s, 0, x);
    }
}

/// Counting duplicates too, the ranked match set holds exactly the
/// candidates whose score against the query is positive.
pub proof fn lemma_matches_multiset(cs: Seq<Seq<char>>, q: Seq<char>)
    ensures
        spec_matches(cs, q).to_multiset() == cs.filter(
            |c: Seq<char>| spec_score_num(c, q) > 0,
        ).to_multiset(),
    decreases cs.len(),
{
    reveal(Seq::filter);
    broadcast use vstd::seq_lib::group_to_multiset_ensures;

    let pred = |c: Seq<char>| spec_score_num(c, q) > 0;
    if cs.len() > 0 {
        let dl = cs.drop_last();
        lemma_matches_multiset(dl, q);
        let prev = spec_matches(dl, q);
        if pred(cs.last()) {
            lemma_rank_insert_multiset(prev, q, cs.last());
            assert(cs.filter(pred) == dl.filter(pred).push(cs.last()));
        } else {
            assert(cs.filter(pred) == dl.filter(pred));
        }
    }
}

/// The inductive core of `lemma_matches_ranked`, phrased over the
/// denominators that order the list.
proof fn lemma_matches_sorted_by_den(cs: Seq<Seq<char>>, q: Seq<char>)
    ensures
        sorted_by_den(spec_matches(cs, q), q),
        forall|t: int|
            0 <= t < spec_matches(cs, q).len() ==> cs.contains(#[trigger] spec_matches(cs, q)[t])
                && spec_score_num(spec_matches(cs, q)[t], q) > 0,
        forall|x: Seq<char>|
            cs.contains(x) && spec_score_num(x, q) > 0 ==> spec_matches(cs, q).contains(x),
    decreases cs.len(),
{
    let r = spec_matches(cs, q);
    if cs.len() > 0 {
        let dl = cs.drop_last();
        let last = cs.last();
        let prev = spec_matches(dl, q);
        lemma_matches_sorted_by_den(dl, q);
        assert forall|y: Seq<char>| dl.contains(y) implies cs.contains(y) by {
            let u = choose|u: int| 0 <= u < dl.len() && dl[u] == y;
            assert(cs[u] == y);
        }
        if spec_score_num(last, q) > 0 {
            lemma_rank_insert_props(prev, q, last);
            assert(cs.contains(last)) by {
                assert(cs[cs.len() - 1] == last);
            }
            assert forall|x: Seq<char>|
                cs.contains(x) && spec_score_num(x, q) > 0 implies r.contains(x) by {
                let u = choose|u: int| 0 <= u < cs.len() && cs[u] == x;
                if u < cs.len() - 1 {
                    assert(dl[u] == x);
                    assert(dl.contains(x));
                }
            }
        } else {
            assert forall|x: Seq<char>|
                cs.contains(x) && spec_score_num(x, q) > 0 implies r.contains(x) by {
                let u = choose|u: int| 0 <= u < cs.len() && cs[u] == x;
                assert(u < cs.len() - 1);
                assert(dl[u] == x);
                assert(dl.contains(x));
            }
        }
    }
}

/// Trailing spaces removed from the end of a query.
pub open spec fn trim_spaces(s: Seq<char>) -> Seq<char>
    decreases s.len(),
{
    if s.len() > 0 && s.last() == ' ' {
        trim_spaces(s.drop_last())
    } else {
        s
    }
}

/// A trailing run of non-space characters removed from the end of a query.
pub open spec fn trim_word(s: Seq<char>) -> Seq<char>
    decreases s.len(),
{
    if s.len() > 0 && s.last() != ' ' {
        trim_word(s.drop_last())
    } else {
        s
    }
}

/// The interactive search session: the configuration it was created from,
/// the candidates it searches, the live query, the ranked match set derived
/// from the query, the cursor position, and whether a choice has been
/// confirmed.
pub struct Search {
    pub config: Configuration,
    pub choices: Vec<String>,
    pub index: u64,
    pub query: String,
    pub done: bool,
    pub matches: Vec<String>,
}

/// The size of the bounded navigation window: how many of the top-ranked
/// matches the cursor can reach.
pub open spec fn spec_window(s: Search) -> int {
    vstd::math::min(s.config.visible_choices as int, s.matches@.len() as int)
}

impl Search {
    /// Assembles a session from its parts; with no precomputed match list,
    /// the ranked match set is derived from the candidates and the query.
    pub fn new(
        config: Configuration,
        choices: Vec<String>,
        index: u64,
        query: String,
        done: bool,
        matches: Option<Vec<String>>,
    ) -> (r: Search)
        ensures
            r.config == config,
            r.choices == choices,
            r.index == index,
            r.query == query,
            r.done == done,
            (match matches {
                Some(m) => r.matches == m,
                None => r.matches.deep_view() == spec_matches(choices.deep_view(), query@),
            }),
    {
        let m = match matches {
            Some(m) => m,
            None => compute_matches(&choices, query.as_str()),
        };
        Search { config, choices, index, query, done, matches: m }
    }

    /// A fresh session over the given configuration: its candidates, its
    /// initial query, the derived match set, the cursor at the top, and not
    /// yet done.
    pub fn blank(config: Configuration) -> (r: Search)
        ensures
            r.config == config,
            r.choices@ == config.choices@,
            r.index == 0,
            r.query@ == config.initial_search@,
            r.done == false,
            r.matches.deep_view() == spec_matches(
                config.choices.deep_view(),
                config.initial_search@,
            ),
    {
        let choices = config.get_choices();
        let initial_search = config.get_initial_search();
        proof {
            assert(choices.deep_view() =~= config.choices.deep_view());
        }
        Search::new(config, choices, 0, initial_search, false, None)
    }

    /// Moves the cursor one row down, wrapping to the top of the bounded
    /// window; with an empty window this is a no-op. The match set is
    /// re-derived from the candidates and the query.
    pub fn down(self) -> (r: Search)
        ensures
            r.config == self.config,
            r.choices == self.choices,
            r.query == self.query,
            r.done == self.done,
            spec_window(self) == 0 ==> r == self,
            spec_window(self) > 0 ==> r.index as int == ((self.index as int) + 1) % spec_window(
                self,
            ),
            spec_window(self) > 0 ==> r.matches.deep_view() == spec_matches(
                self.choices.deep_view(),
                self.query@,
            ),
    {
        let max_visible_choices = self.max_visible_choices();

        if max_visible_choices > 0 {
            let reduced = self.index % max_visible_choices;
            let next = if reduced + 1 == max_visible_choices {
                0
            } else {
                reduced + 1
            };
            proof {
                let w = max_visible_choices as int;
                let i = self.index as int;
                vstd::arithmetic::div_mod::lemma_mod_bound(i, w);
                vstd::arithmetic::div_mod::lemma_add_mod_noop(i, 1, w);
                vstd::arithmetic::div_mod::lemma_mod_bound(1int, w);
                if (i % w) + 1 == w {
                    vstd::arithmetic::div_mod::lemma_mod_self_0(w);
                    vstd::arithmetic::div_mod::lemma_add_mod_noop(i % w, 1, w);
                } else {
                    vstd::arithmetic::div_mod::lemma_small_mod(((i % w) + 1) as nat, w as nat);
                    vstd::arithmetic::div_mod::lemma_add_mod_noop(i % w, 1, w);
                }
                if w > 1 {
                    vstd::arithmetic::div_mod::lemma_small_mod(1nat, w as nat);
                }
            }
            Search::new(self.config, self.choices, next, self.query, self.done, None)
        } else {
            self
        }
    }

    /// Moves the cursor one row up, wrapping to the bottom of the bounded
    /// window; with an empty window this is a no-op. The match set is
    /// re-derived from the candidates and the query.
    pub fn up(self) -> (r: Search)
        ensures
            r.config == self.config,
            r.choices == self.choices,
            r.query == self.query,
            r.done == self.done,
            spec_window(self) == 0 ==> r == self,
            spec_window(self) > 0 ==> r.index as int == if self.index == 0 {
                spec_window(self) - 1
            } else {
                self.index as int - 1
            },
            spec_window(self) > 0 ==> r.matches.deep_view() == spec_matches(
                self.choices.deep_view(),
                self.query@,
            ),
    {
        let max_visible_choices = self.max_visible_choices();

        if max_visible_choices > 0 {
            let index: u64 = if self.index == 0 {
                max_visible_choices - 1
            } else {
                self.index - 1
            };
            Search::new(self.config, self.choices, index, self.query, self.done, None)
        } else {
            self
        }
    }

    /// How many rows the cursor can reach: the visible-row count, or the
    /// match count when fewer matches than rows exist.
    fn max_visible_choices(&self) -> (r: u64)
        ensures
            r as int == spec_window(*self),
    {
        let visible = self.config.visible_choices as u64;
        let found = self.matches.len() as u64;
        if visible < found {
            visible
        } else {
            found
        }
    }

    /// Appends text to the query, re-derives the match set against the new
    /// query, and resets the cursor to the top.
    pub fn append_search_string(self, string: &str) -> (r: Search)
        ensures
            r.config == self.config,
            r.choices == self.choices,
            r.index == 0,
            r.query@ == self.query@ + string@,
            r.done == self.done,
            r.matches.deep_view() == spec_matches(self.choices.deep_view(), self.query@ + string@),
    {
        let query = self.query.concat(string);
        Search::new(self.config, self.choices, 0, query, self.done, None)
    }

    /// Removes the last character of the query (a no-op on an empty query),
    /// re-derives the match set, and resets the cursor.
    pub fn backspace(&mut self) -> (r: &Search)
        ensures
            final(self).config == old(self).config,
            final(self).choices == old(self).choices,
            final(self).done == old(self).done,
            final(self).index == 0,
            final(self).query@ == old(self).query@.take(
                if old(self).query@.len() > 0 {
                    old(self).query@.len() - 1
                } else {
                    0
                },
            ),
            final(self).matches.deep_view() == spec_matches(
                old(self).choices.deep_view(),
                final(self).query@,
            ),
            r == *final(self),
    {
        let n = self.query.unicode_len();
        if n > 0 {
            self.query = self.query.as_str().substring_char(0, n - 1).to_owned();
        } else {
            proof {
                assert(self.query@.take(0) =~= self.query@);
            }
        }
        self.matches = compute_matches(&self.choices, self.query.as_str());
        self.index = 0;
        self
    }

    /// Empties the query, re-derives the match set (every candidate matches
    /// an empty query), and resets the cursor.
    pub fn clear_query(&mut self) -> (r: &Search)
        ensures
            final(self).config == old(self).config,
            final(self).choices == old(self).choices,
            final(self).done == old(self).done,
            final(self).index == 0,
            final(self).query@ == Seq::<char>::empty(),
            final(self).matches.deep_view() == spec_matches(
                old(self).choices.deep_view(),
                Seq::<char>::empty(),
            ),
            r == *final(self),
    {
        self.query = String::new();
        self.matches = compute_matches(&self.choices, self.query.as_str());
        self.index = 0;
        self
    }

    /// Removes one trailing word from the query: the trailing spaces, if
    /// any, and the run of non-space characters before them. Re-derives the
    /// match set and resets the cursor.
    pub fn delete_word(&mut self) -> (r: &Search)
        ensures
            final(self).config == old(self).config,
            final(self).choices == old(self).choices,
            final(self).done == old(self).done,
            final(self).index == 0,
            final(self).query@ == trim_word(trim_spaces(old(self).query@)),
            final(self).matches.deep_view() == spec_matches(
                old(self).choices.deep_view(),
                final(self).query@,
            ),
            r == *final(self),
    {
        let ghost q = self.query@;
        let mut j = self.query.unicode_len();
        while j > 0 && self.query.as_str().get_char(j - 1) == ' '
            invariant
                j <= q.len(),
                q == self.query@,
                j as int == q.len() || trim_spaces(q) == trim_spaces(q.take(j as int)),
            decreases j,
        {
            proof {
                assert(q.take(j as int).drop_last() =~= q.take(j - 1));
                if j as int == q.len() {
                    assert(q.take(j as int) =~= q);
                }
            }
            j = j - 1;
        }
        proof {
            if j as int == q.len() {
                assert(q.take(j as int) =~= q);
            }
            assert(trim_spaces(q) == trim_spaces(q.take(j as int)));
            assert(trim_spaces(q.take(j as int)) == q.take(j as int));
        }
        let ghost mid = q.take(j as int);
        let mut j2 = j;
        while j2 > 0 && self.query.as_str().get_char(j2 - 1) != ' '
            invariant
                j2 <= j <= q.len(),
                q == self.query@,
                mid == q.take(j as int),
                trim_word(mid) == trim_word(q.take(j2 as int)),
            decreases j2,
        {
            proof {
                assert(q.take(j2 as int).drop_last() =~= q.take(j2 - 1));
                assert(q.take(j2 as int) =~= mid.take(j2 as int));
                assert(q.take(j2 - 1) =~= mid.take(j2 - 1));
            }
            j2 = j2 - 1;
        }
        proof {
            assert(trim_word(q.take(j2 as int)) == q.take(j2 as int));
            assert(trim_word(trim_spaces(q)) == q.take(j2 as int));
        }
        self.query = self.query.as_str().substring_char(0, j2).to_owned();
        proof {
            assert(self.query@ =~= q.take(j2 as int));
        }
        self.matches = compute_matches(&self.choices, self.query.as_str());
        self.index = 0;
        self
    }

    /// The currently highlighted match, if the cursor points at one.
    pub fn selection(&self) -> (r: Option<&String>)
        ensures
            match r {
                Some(s) => self.index < self.matches@.len() && *s == self.matches@[
                    self.index as int
                ],
                None => self.index >= self.matches@.len(),
            },
    {
        if self.index < self.matches.len() as u64 {
            Some(&self.matches[self.index as usize])
        } else {
            None
        }
    }

    pub fn get_query(&self) -> (r: &String)
        ensures
            r == self.query,
    {
        &self.query
    }

    pub fn get_index(&self) -> (r: u64)
        ensures
            r == self.index,
    {
        self.index
    }

    pub fn is_done(&self) -> (r: bool)
        ensures
            r == self.done,
    {
        self.done
    }

    /// Marks the session finished. Idempotent, and irreversible: no session
    /// operation ever clears the flag again.
    pub fn done(&mut self) -> (r: &Search)
        ensures
            final(self).config == old(self).config,
            final(self).choices == old(self).choices,
            final(self).index == old(self).index,
            final(self).query == old(self).query,
            final(self).matches == old(self).matches,
            final(self).done == true,
            r == *final(self),
    {
        self.done = true;
        self
    }
}

} // verus!
