use vstd::prelude::*;
use crate::log::{compacted, contiguous, first_index_of, last_index_of, lemma_compact, term_at_of};
use crate::message::{KindView, MessageView};
use crate::node::{ActionView, Role};
use crate::node_model as model;
use crate::node_model::{step, NodeView};

verus! {

/// The peers whose recorded match index is at least `n`.
pub open spec fn peers_holding(peers: Seq<u64>, match_index: Map<u64, u64>, n: u64) -> Seq<u64> {
    peers.filter(|p: u64| match_index.contains_key(p) && match_index[p] >= n)
}

/// Counting the peers that hold a nonzero index one by one gives the peers holding it.
proof fn lemma_holding_counted(peers: Seq<u64>, m: Map<u64, u64>, n: u64)
    requires
        n >= 1,
    ensures
        peers_holding(peers, m, n).len() == model::match_count(peers, m, n),
    decreases peers.len(),
{
    reveal(Seq::filter);
    if peers.len() > 0 {
        lemma_holding_counted(peers.drop_last(), m, n);
    }
}

/// An index that qualifies for commit and lies within the searched range is
/// reached by the search.
proof fn lemma_best_commit_reaches(s: NodeView, top: u64, n: u64)
    requires
        model::commit_qualifies(s, n),
        n <= top,
    ensures
        model::best_commit_upto(s, top) >= n,
    decreases top,
{
    if top > s.commit_index && !model::commit_qualifies(s, top) {
        lemma_best_commit_reaches(s, (top - 1) as u64, n);
    }
}

/// Commit on the leader: when the entry at index `n` is of the leader's own
/// term and the leader together with the peers whose match index is at least
/// `n` make a majority of the cluster, advancing the commit index reaches at
/// least `n`, and never lowers it.
pub proof fn lemma_majority_entry_committed(s: NodeView, n: u64)
    requires
        term_at_of(s.log, n) == Some(s.current_term),
        n <= last_index_of(s.log),
        1 + peers_holding(s.peers, s.match_index, n).len() >= (s.peers.len() + 1) / 2 + 1,
    ensures
        model::maybe_advance_commit(s).node.commit_index >= n,
        model::maybe_advance_commit(s).node.commit_index >= s.commit_index,
{
    let top = last_index_of(s.log);
    if n >= 1 {
        lemma_holding_counted(s.peers, s.match_index, n);
        assert(model::commit_qualifies(s, n));
        lemma_best_commit_reaches(s, top, n);
    }
}

/// The same on a successful replication reply from `m.from` in the leader's
/// term: the reply itself counts that peer as holding the whole log, so an
/// entry of the leader's term that the leader, `m.from` and the peers already
/// matched at or past it make a majority for is committed.
pub proof fn lemma_reply_commits_majority_entry(s: NodeView, m: MessageView, n: u64)
    requires
        s.role == Role::Leader,
        m.term == s.current_term,
        m.kind matches KindView::AppendEntriesResponse { success, .. } && success,
        term_at_of(s.log, n) == Some(s.current_term),
        n <= last_index_of(s.log),
        1 + s.peers.filter(
            |p: u64| p == m.from || (s.match_index.contains_key(p) && s.match_index[p] >= n),
        ).len() >= (s.peers.len() + 1) / 2 + 1,
    ensures
        step(s, m).node.commit_index >= n,
        step(s, m).node.commit_index >= s.commit_index,
{
    let last = last_index_of(s.log);
    let p = NodeView {
        next_index: s.next_index.insert(m.from, (last + 1) as u64),
        match_index: s.match_index.insert(m.from, last),
        ..s
    };
    let f1 = |q: u64| q == m.from || (s.match_index.contains_key(q) && s.match_index[q] >= n);
    let f2 = |q: u64| p.match_index.contains_key(q) && p.match_index[q] >= n;
    assert(f1 =~= f2);
    assert(peers_holding(p.peers, p.match_index, n) == s.peers.filter(f1));
    lemma_majority_entry_committed(p, n);
    assert(step(s, m).node == model::maybe_advance_commit(p).node);
}

/// Pre-vote under a leader's lease: a server that knows a leader and whose
/// election clock has not yet reached its base timeout refuses every
/// pre-vote request, whatever its term and log, and changes nothing.
pub proof fn lemma_pre_vote_refused_under_lease(s: NodeView, m: MessageView)
    requires
        s.leader_id is Some,
        s.election_elapsed < s.election_timeout_base,
        m.kind is PreVote,
    ensures
        step(s, m).node == s,
        step(s, m).actions == seq![
            ActionView::Send(
                MessageView {
                    from: s.id,
                    to: m.from,
                    term: s.current_term,
                    kind: KindView::PreVoteResponse { vote_granted: false },
                },
            ),
        ],
{
    assert(step(s, m).actions =~= seq![
        ActionView::Send(
            MessageView {
                from: s.id,
                to: m.from,
                term: s.current_term,
                kind: KindView::PreVoteResponse { vote_granted: false },
            },
        ),
    ]);
}

/// Compaction persists what it was given: up to the commit index it emits
/// exactly one action, a snapshot of the given index, term and data, and
/// moves the log's sentinel there; past the commit index it does nothing.
pub proof fn lemma_compaction_persists_given_snapshot(s: NodeView, li: u64, lt: u64, data: Seq<u8>)
    requires
        contiguous(s.log),
    ensures
        li <= s.commit_index ==> model::compact_logs(s, li, lt, data).actions == seq![
            ActionView::PersistSnapshot { last_included_index: li, last_included_term: lt, data },
        ],
        li <= s.commit_index && li > first_index_of(s.log) ==> first_index_of(
            model::compact_logs(s, li, lt, data).node.log,
        ) == li && term_at_of(model::compact_logs(s, li, lt, data).node.log, li) == Some(lt),
        li > s.commit_index ==> model::compact_logs(s, li, lt, data).node == s
            && model::compact_logs(s, li, lt, data).actions.len() == 0,
        forall|i: int|
            0 <= i < model::compact_logs(s, li, lt, data).actions.len() ==> ((
            #[trigger] model::compact_logs(s, li, lt, data).actions[i]) matches ActionView::PersistSnapshot {
                data: d,
                ..
            } ==> d == data),
{
    lemma_compact(s.log, li, lt);
}

} // verus!

verus! {

/// Applying on a contiguous log hands out, in order, exactly the entries after
/// the applied index up to the commit index, and then counts them all as
/// applied.
pub proof fn lemma_apply_reaches_commit(s: NodeView)
    requires
        contiguous(s.log),
        first_index_of(s.log) <= s.last_applied,
        s.last_applied < s.commit_index,
        s.commit_index <= last_index_of(s.log),
    ensures
        model::apply_committed(s).node.last_applied == s.commit_index,
        model::apply_committed(s).actions.len() == 1,
        model::apply_committed(s).actions[0] matches ActionView::Apply { entries } && entries.len()
            == s.commit_index - s.last_applied && forall|k: int|
            0 <= k < entries.len() ==> #[trigger] entries[k] == s.log[s.last_applied + 1 + k
                - first_index_of(s.log)],
{
    crate::log::lemma_contiguous_positions(s.log);
    let base = first_index_of(s.log);
    let start = (s.last_applied + 1) as u64;
    let from = crate::log::entries_from_of(s.log, start);
    let i = s.commit_index - s.last_applied;
    assert(from =~= s.log.subrange(start - base, s.log.len() as int));
    assert forall|j: int| 0 <= j < from.len() implies #[trigger] from[j].index == start + j by {
        assert(from[j] == s.log[start - base + j]);
    }
    model::lemma_take_while_split(from, s.commit_index, i);
    let rest = from.skip(i);
    if rest.len() > 0 {
        assert(rest[0] == from[i]);
    }
    assert(model::take_while_le(rest, s.commit_index) =~= Seq::<crate::message::EntryView>::empty());
    let es = model::take_while_le(from, s.commit_index);
    assert(es =~= from.take(i));
    assert(es.last() == from[i - 1]);
}

} // verus!

verus! {

/// The search never returns an index above the commit index that does not
/// qualify: an entry of the leader's term that the leader and the peers
/// matched at or past it make a majority for.
proof fn lemma_best_commit_qualifies(s: NodeView, top: u64)
    ensures
        model::best_commit_upto(s, top) == s.commit_index || (model::best_commit_upto(s, top) > s.commit_index
            && model::commit_qualifies(s, model::best_commit_upto(s, top))),
    decreases top,
{
    if top > s.commit_index && !model::commit_qualifies(s, top) {
        lemma_best_commit_qualifies(s, (top - 1) as u64);
    }
}

/// Commit on the leader only ever moves to an entry of its own term that the
/// leader and the peers matched at or past it make a majority for.
pub proof fn lemma_commit_only_on_majority(s: NodeView)
    ensures
        model::maybe_advance_commit(s).node.commit_index > s.commit_index ==> {
            let c = model::maybe_advance_commit(s).node.commit_index;
            &&& term_at_of(s.log, c) == Some(s.current_term)
            &&& 1 + peers_holding(s.peers, s.match_index, c).len() >= (s.peers.len() + 1) / 2 + 1
        },
{
    let top = last_index_of(s.log);
    lemma_best_commit_qualifies(s, top);
    let c = model::best_commit_upto(s, top);
    if c > s.commit_index {
        lemma_holding_counted(s.peers, s.match_index, c);
    }
}

/// Pre-vote: a request is granted exactly when its proposed term is not
/// below the server's, the candidate's last entry has a higher term than the
/// server's last entry or the same term and an index at least as high, and
/// the server does not know a leader heard from within its base timeout.
/// Granting or refusing changes nothing in the server.
pub proof fn lemma_pre_vote_decision(s: NodeView, m: MessageView)
    requires
        m.kind is PreVote,
    ensures
        step(s, m).node == s,
        step(s, m).actions == seq![
            ActionView::Send(
                MessageView {
                    from: s.id,
                    to: m.from,
                    term: s.current_term,
                    kind: KindView::PreVoteResponse {
                        vote_granted: m.term >= s.current_term && (m.kind->PreVote_last_log_term
                            > s.log.last().term || (m.kind->PreVote_last_log_term == s.log.last().term
                            && m.kind->PreVote_last_log_index >= s.log.last().index)) && !(
                        s.leader_id is Some && s.election_elapsed < s.election_timeout_base),
                    },
                },
            ),
        ],
{
    assert(step(s, m).actions =~= seq![
        ActionView::Send(
            MessageView {
                from: s.id,
                to: m.from,
                term: s.current_term,
                kind: KindView::PreVoteResponse {
                    vote_granted: m.term >= s.current_term && (m.kind->PreVote_last_log_term
                        > s.log.last().term || (m.kind->PreVote_last_log_term == s.log.last().term
                        && m.kind->PreVote_last_log_index >= s.log.last().index)) && !(
                    s.leader_id is Some && s.election_elapsed < s.election_timeout_base),
                },
            },
        ),
    ]);
}

} // verus!
