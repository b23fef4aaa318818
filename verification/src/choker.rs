//! Unchoke selection: orders peers so that the first upload-slot many are
//! the ones to unchoke.

use std::cmp::Ordering;

use vstd::multiset::Multiset;
use vstd::prelude::*;

use crate::peer_connection::PeerConnection;

verus! {

broadcast use {vstd::std_specs::vec::group_vec_axioms, vstd::seq_lib::group_seq_lib_default, vstd::seq_lib::group_to_multiset_ensures, vstd::multiset::group_multiset_axioms};

/// An absent time stands for the oldest possible one.
pub open spec fn opt_le(a: Option<u64>, b: Option<u64>) -> bool {
    match (a, b) {
        (Option::None, _) => true,
        (Option::Some(_), Option::None) => false,
        (Option::Some(x), Option::Some(y)) => x <= y,
    }
}

/// `a` deserves the upload slot no less than `b`: interested peers first,
/// then the longest-unchoked (never-unchoked counting as oldest).
pub open spec fn unchoke_before(a: PeerConnection, b: PeerConnection) -> bool {
    if a.is_peer_interesting != b.is_peer_interesting {
        a.is_peer_interesting
    } else {
        opt_le(a.last_unchoked_at, b.last_unchoked_at)
    }
}

/// The ordering is total.
pub proof fn lemma_unchoke_total(a: PeerConnection, b: PeerConnection)
    ensures
        unchoke_before(a, b) || unchoke_before(b, a),
{
}

/// The ordering is transitive.
pub proof fn lemma_unchoke_trans(a: PeerConnection, b: PeerConnection, c: PeerConnection)
    requires
        unchoke_before(a, b),
        unchoke_before(b, c),
    ensures
        unchoke_before(a, c),
{
}

/// Hands out a bounded number of upload slots.
pub struct Choker {
    upload_slot: usize,
}

impl Choker {
    /// How many peers may be unchoked at once.
    pub closed spec fn spec_upload_slot(&self) -> usize {
        self.upload_slot
    }

    pub fn new(upload_slot: usize) -> (r: Self)
        ensures
            r.spec_upload_slot() == upload_slot,
    {
        Choker { upload_slot }
    }

    pub fn set_upload_slot(&mut self, upload_slot: usize)
        ensures
            final(self).spec_upload_slot() == upload_slot,
    {
        self.upload_slot = upload_slot;
    }

    /// Orders `peers` by unchoke priority and returns the effective slot
    /// count: the first that many peers are the ones to unchoke.
    ///
    /// The result is a permutation of the input, fully ordered, so in
    /// particular every interested peer stands before every uninterested
    /// one, and within the interested the longest-unchoked come first.
    pub fn sort_by_unchoke(&self, peers: &mut Vec<PeerConnection>) -> (r: usize)
        ensures
            r == if self.spec_upload_slot() <= old(peers)@.len() {
                self.spec_upload_slot() as int
            } else {
                old(peers)@.len() as int
            },
            final(peers)@.len() == old(peers)@.len(),
            final(peers)@.to_multiset() == old(peers)@.to_multiset(),
            forall|i: int, j: int|
                0 <= i <= j < final(peers)@.len() ==> unchoke_before(
                    #[trigger] final(peers)@[i],
                    #[trigger] final(peers)@[j],
                ),
    {
        let n = peers.len();
        let slots = if self.upload_slot <= n {
            self.upload_slot
        } else {
            n
        };
        let mut sorted: Vec<PeerConnection> = Vec::new();
        proof {
            assert(sorted@.to_multiset().add(peers@.to_multiset()) =~= old(
                peers,
            )@.to_multiset());
        }
        while peers.len() > 0
            invariant
                sorted@.len() + peers@.len() == old(peers)@.len(),
                sorted@.to_multiset().add(peers@.to_multiset()) == old(peers)@.to_multiset(),
                forall|i: int, j: int|
                    0 <= i <= j < sorted@.len() ==> unchoke_before(
                        #[trigger] sorted@[i],
                        #[trigger] sorted@[j],
                    ),
            decreases peers@.len(),
        {
            let ghost head = peers@;
            let x = match peers.pop() {
                Some(x) => x,
                None => {
                    proof {
                        assert(false);
                    }
                    vstd::pervasive::unreached()
                },
            };
            proof {
                assert(head =~= peers@.push(x));
                assert(head.to_multiset() =~= peers@.to_multiset().insert(x));
            }
            let pos = find_insert_pos(&sorted, &x);
            let ghost presorted = sorted@;
            sorted.insert(pos, x);
            proof {
                assert(sorted@ =~= presorted.take(pos as int) + seq![x] + presorted.skip(
                    pos as int,
                ));
                lemma_insert_multiset(presorted, x, pos as int);
                assert(sorted@.to_multiset() =~= presorted.to_multiset().insert(x));
                lemma_insert_add_swap(presorted.to_multiset(), peers@.to_multiset(), x);
                assert(sorted@.to_multiset().add(peers@.to_multiset()) =~= old(
                    peers,
                )@.to_multiset());
                assert forall|i: int, j: int| 0 <= i <= j < sorted@.len() implies unchoke_before(
                    #[trigger] sorted@[i],
                    #[trigger] sorted@[j],
                ) by {
                    lemma_sorted_after_insert(presorted, x, pos as int, i, j);
                }
            }
        }
        *peers = sorted;
        slots
    }

    /// The pairwise ordering behind the sort, as the standard three-way
    /// comparison: interested before uninterested, then older unchoke time
    /// first with an absent time oldest of all.
    pub fn unchoke_compare_round_robin(a: &PeerConnection, b: &PeerConnection) -> (r: Ordering)
        ensures
            r is Less ==> unchoke_before(*a, *b) && !unchoke_before(*b, *a),
            r is Greater ==> unchoke_before(*b, *a) && !unchoke_before(*a, *b),
            r is Equal ==> unchoke_before(*a, *b) && unchoke_before(*b, *a),
    {
        match (a.is_peer_interesting, b.is_peer_interesting) {
            (true, false) => {
                return Ordering::Less;
            },
            (false, true) => {
                return Ordering::Greater;
            },
            _ => {},
        }
        match (&a.last_unchoked_at, &b.last_unchoked_at) {
            (None, None) => Ordering::Equal,
            (None, Some(_)) => Ordering::Less,
            (Some(_), None) => Ordering::Greater,
            (Some(x), Some(y)) => {
                if *x < *y {
                    Ordering::Less
                } else if *x > *y {
                    Ordering::Greater
                } else {
                    Ordering::Equal
                }
            },
        }
    }
}

/// Law: in a peer run ordered for unchoking — as `sort_by_unchoke` leaves
/// it — every interested peer stands before every uninterested one, and
/// among the interested the unchoke times never decrease, an absent time
/// counting as the earliest. In particular any prefix of the run, such as
/// the first upload-slot many peers, prefers interested and long-waiting
/// peers.
pub proof fn lemma_unchoke_order(s: Seq<PeerConnection>)
    requires
        forall|i: int, j: int|
            0 <= i <= j < s.len() ==> unchoke_before(#[trigger] s[i], #[trigger] s[j]),
    ensures
        forall|i: int, j: int|
            0 <= i <= j < s.len() && (#[trigger] s[j]).is_peer_interesting ==> (
            #[trigger] s[i]).is_peer_interesting,
        forall|i: int, j: int|
            0 <= i <= j < s.len() && (#[trigger] s[i]).is_peer_interesting && (
            #[trigger] s[j]).is_peer_interesting ==> opt_le(
                s[i].last_unchoked_at,
                s[j].last_unchoked_at,
            ),
{
}

/// The first position whose element need not precede `x`; inserting `x`
/// there keeps the run sorted.
fn find_insert_pos(sorted: &Vec<PeerConnection>, x: &PeerConnection) -> (r: usize)
    requires
        forall|i: int, j: int|
            0 <= i <= j < sorted@.len() ==> unchoke_before(
                #[trigger] sorted@[i],
                #[trigger] sorted@[j],
            ),
    ensures
        r <= sorted@.len(),
        forall|i: int| 0 <= i < r ==> unchoke_before(#[trigger] sorted@[i], *x),
        forall|i: int| r <= i < sorted@.len() ==> unchoke_before(*x, #[trigger] sorted@[i]),
{
    let mut p: usize = 0;
    while p < sorted.len()
        invariant
            p <= sorted@.len(),
            forall|i: int, j: int|
                0 <= i <= j < sorted@.len() ==> unchoke_before(
                    #[trigger] sorted@[i],
                    #[trigger] sorted@[j],
                ),
            forall|i: int| 0 <= i < p ==> unchoke_before(#[trigger] sorted@[i], *x),
        decreases sorted@.len() - p,
    {
        let keep_going = before_exec(&sorted[p], x);
        if !keep_going {
            proof {
                lemma_unchoke_total(sorted@[p as int], *x);
                assert forall|i: int| p <= i < sorted@.len() implies unchoke_before(
                    *x,
                    #[trigger] sorted@[i],
                ) by {
                    lemma_unchoke_trans(*x, sorted@[p as int], sorted@[i]);
                }
            }
            return p;
        }
        p = p + 1;
    }
    p
}

/// Decides `unchoke_before` on references.
fn before_exec(a: &PeerConnection, b: &PeerConnection) -> (r: bool)
    ensures
        r == unchoke_before(*a, *b),
{
    if a.is_peer_interesting != b.is_peer_interesting {
        a.is_peer_interesting
    } else {
        match (&a.last_unchoked_at, &b.last_unchoked_at) {
            (None, _) => true,
            (Some(_), None) => false,
            (Some(x), Some(y)) => *x <= *y,
        }
    }
}

proof fn lemma_insert_add_swap(a: Multiset<PeerConnection>, b: Multiset<PeerConnection>, x: PeerConnection)
    ensures
        a.insert(x).add(b) == a.add(b.insert(x)),
{
    assert(a.insert(x).add(b) =~= a.add(b.insert(x)));
}

proof fn lemma_insert_multiset(s: Seq<PeerConnection>, x: PeerConnection, pos: int)
    requires
        0 <= pos <= s.len(),
    ensures
        (s.take(pos) + seq![x] + s.skip(pos)).to_multiset() == s.to_multiset().insert(x),
{
    broadcast use vstd::seq_lib::group_to_multiset_ensures;

    vstd::seq_lib::lemma_multiset_commutative(s.take(pos) + seq![x], s.skip(pos));
    vstd::seq_lib::lemma_multiset_commutative(s.take(pos), seq![x]);
    vstd::seq_lib::lemma_multiset_commutative(s.take(pos), s.skip(pos));
    assert(s.take(pos) + s.skip(pos) =~= s);
    assert(seq![x].to_multiset() =~= Multiset::<PeerConnection>::empty().insert(x)) by {
        assert(seq![x].drop_first() =~= Seq::<PeerConnection>::empty());
    }
    assert((s.take(pos) + seq![x] + s.skip(pos)).to_multiset() =~= s.to_multiset().insert(x));
}

proof fn lemma_sorted_after_insert(
    s: Seq<PeerConnection>,
    x: PeerConnection,
    pos: int,
    i: int,
    j: int,
)
    requires
        0 <= pos <= s.len(),
        forall|a: int, b: int|
            0 <= a <= b < s.len() ==> unchoke_before(#[trigger] s[a], #[trigger] s[b]),
        forall|a: int| 0 <= a < pos ==> unchoke_before(#[trigger] s[a], x),
        forall|a: int| pos <= a < s.len() ==> unchoke_before(x, #[trigger] s[a]),
        0 <= i <= j < s.len() + 1,
    ensures
        unchoke_before(
            (s.take(pos) + seq![x] + s.skip(pos))[i],
            (s.take(pos) + seq![x] + s.skip(pos))[j],
        ),
{
    let t = s.take(pos) + seq![x] + s.skip(pos);
    assert(t.len() == s.len() + 1);
    assert(forall|a: int| 0 <= a < pos ==> t[a] == s[a]);
    assert(t[pos] == x);
    assert(forall|a: int| pos < a < t.len() ==> t[a] == s[a - 1]);
    if i == j {
        lemma_unchoke_total(t[i], t[i]);
    }
}

} // verus!
