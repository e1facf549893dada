//! Threshold aggregation of key-server responses to one service request.

use vstd::prelude::*;
use crate::bytes::bytes_eq;
use crate::mask::KeyServersMask;

verus! {

/// Meta data of the responses that key servers have given to one request.
#[derive(Clone, Copy, Debug, PartialEq, Eq, Structural)]
pub struct Responses {
    /// Value of the set-change block when the tally began: the tally is valid
    /// while the global value stays the same.
    pub key_servers_change_block: u64,
    /// Key servers (by index) that have responded, whatever they responded.
    pub responded_key_servers_mask: KeyServersMask,
    /// Number of key servers that have responded.
    pub responded_key_servers_count: u8,
    /// Largest support of a single response.
    pub max_response_support: u8,
}

/// How a response is supported by the current key server set.
#[derive(Clone, Copy, Debug, PartialEq, Eq, Structural)]
pub enum ResponseSupport {
    /// More key servers must support the response.
    Unconfirmed,
    /// The response is supported by the required number of key servers.
    Confirmed,
    /// Key servers cannot agree on any response any more.
    Impossible,
}

impl Responses {
    /// The responded count is the number of responders, and no response has
    /// more supporters than there are responders.
    pub open spec fn wf(self) -> bool {
        &&& self.responded_key_servers_mask@.len() == self.responded_key_servers_count as nat
        &&& self.max_response_support <= self.responded_key_servers_count
    }

    /// The tally began under another key server set and holds responses.
    pub open spec fn is_stale(self, change_block: u64) -> bool {
        self.responded_key_servers_count != 0 && self.key_servers_change_block != change_block
    }

    /// The meta data once stamped with the current set-change block: a stale
    /// tally starts over.
    pub open spec fn rebase(self, change_block: u64) -> Responses {
        if self.is_stale(change_block) {
            Responses {
                key_servers_change_block: change_block,
                responded_key_servers_mask: KeyServersMask::spec_empty(),
                responded_key_servers_count: 0,
                max_response_support: 0,
            }
        } else {
            Responses { key_servers_change_block: change_block, ..self }
        }
    }

    /// Whether the key server of index `index` has responded since the tally
    /// began under set-change block `change_block`.
    pub open spec fn has_responded(self, change_block: u64, index: u8) -> bool {
        self.rebase(change_block).responded_key_servers_mask@.contains(index as int)
    }

    /// The meta data after the key server of index `index` responds with a
    /// response whose support then is `support`.
    pub open spec fn after_response(self, change_block: u64, index: u8, support: nat) -> Responses {
        let b = self.rebase(change_block);
        if b.responded_key_servers_mask@.contains(index as int) {
            b
        } else {
            Responses {
                key_servers_change_block: change_block,
                responded_key_servers_mask: b.responded_key_servers_mask.spec_with(index),
                responded_key_servers_count: (b.responded_key_servers_count + 1) as u8,
                max_response_support: if support >= b.max_response_support {
                    support as u8
                } else {
                    b.max_response_support
                },
            }
        }
    }
}

/// The decision on a request once a fresh response has been counted: `n` key
/// servers, and `threshold + 1` of them must agree.
pub open spec fn decide(n: nat, threshold: nat, after: Responses) -> ResponseSupport {
    if after.max_response_support >= threshold + 1 {
        ResponseSupport::Confirmed
    } else if after.max_response_support + (n - after.responded_key_servers_count) < threshold
        + 1 {
        ResponseSupport::Impossible
    } else {
        ResponseSupport::Unconfirmed
    }
}

/// Response => number of key servers that have given it, for one request.
pub struct ResponsesSupport {
    entries: Vec<(Vec<u8>, u8)>,
}

impl ResponsesSupport {
    /// Every response occurs at most once.
    pub closed spec fn wf(&self) -> bool {
        forall|i: int, j: int|
            0 <= i < self.entries@.len() && 0 <= j < self.entries@.len() && i != j
                ==> self.entries@[i].0@ != self.entries@[j].0@
    }

    /// Number of key servers that have given response `x`.
    pub closed spec fn count_of(&self, x: Seq<u8>) -> nat {
        if exists|i: int| 0 <= i < self.entries@.len() && self.entries@[i].0@ == x {
            let i = choose|i: int| 0 <= i < self.entries@.len() && self.entries@[i].0@ == x;
            self.entries@[i].1 as nat
        } else {
            0
        }
    }

    /// An empty tally.
    pub fn new() -> (r: Self)
        ensures
            r.wf(),
            forall|x: Seq<u8>| r.count_of(x) == 0,
    {
        ResponsesSupport { entries: Vec::new() }
    }

    /// Increase support of given response by one. Returns new support.
    pub fn support(&mut self, response: &Vec<u8>) -> (r: u8)
        requires
            old(self).wf(),
            old(self).count_of(response@) < 255,
        ensures
            final(self).wf(),
            r as nat == old(self).count_of(response@) + 1,
            final(self).count_of(response@) == r as nat,
            forall|x: Seq<u8>| x != response@ ==> final(self).count_of(x) == old(self).count_of(x),
    {
        let ghost prev = self.entries@;
        let mut i: usize = 0;
        while i < self.entries.len()
            invariant
                i <= self.entries@.len(),
                self.entries@ == prev,
                old(self).entries@ == prev,
                old(self).wf(),
                old(self).count_of(response@) < 255,
                forall|j: int| 0 <= j < i ==> self.entries@[j].0@ != response@,
            decreases self.entries@.len() - i,
        {
            if bytes_eq(&self.entries[i].0, response) {
                let n = self.entries[i].1;
                assert(prev[i as int].0@ == response@);
                assert(old(self).count_of(response@) == n as nat);
                let k = self.entries[i].0.clone();
                self.entries.set(i, (k, n + 1));
                assert forall|x: Seq<u8>| #![auto]
                    x != response@ ==> self.count_of(x) == old(self).count_of(x) by {
                    if x != response@ {
                        if exists|j: int| 0 <= j < prev.len() && prev[j].0@ == x {
                            let j = choose|j: int| 0 <= j < prev.len() && prev[j].0@ == x;
                            assert(self.entries@[j].0@ == x);
                        }
                    }
                }
                assert(self.entries@[i as int].0@ == response@);
                assert(self.count_of(response@) == n + 1);
                return n + 1;
            }
            i = i + 1;
        }
        assert(self.count_of(response@) == 0);
        self.entries.push((response.clone(), 1));
        assert(self.entries@[prev.len() as int].0@ == response@);
        assert forall|x: Seq<u8>| #![auto]
            x != response@ ==> self.count_of(x) == old(self).count_of(x) by {
            if x != response@ {
                if exists|j: int| 0 <= j < prev.len() && prev[j].0@ == x {
                    let j = choose|j: int| 0 <= j < prev.len() && prev[j].0@ == x;
                    assert(self.entries@[j].0@ == x);
                }
            }
        }
        1
    }

    /// Clear all known responses.
    pub fn reset(&mut self)
        ensures
            final(self).wf(),
            forall|x: Seq<u8>| final(self).count_of(x) == 0,
    {
        self.entries = Vec::new();
    }
}

/// The support of response `response` once counted: the tally starts over
/// when it is stale.
pub open spec fn new_support(
    change_block: u64,
    rs: Responses,
    sup: ResponsesSupport,
    response: Seq<u8>,
) -> nat {
    if rs.is_stale(change_block) {
        1
    } else {
        sup.count_of(response) + 1
    }
}

/// The decision on a request when the key server of index `index` responds
/// with `response`, in a set of `n` key servers where `threshold + 1` must
/// agree.
pub open spec fn outcome(
    n: nat,
    change_block: u64,
    index: u8,
    threshold: nat,
    rs: Responses,
    sup: ResponsesSupport,
    response: Seq<u8>,
) -> ResponseSupport {
    if rs.has_responded(change_block, index) {
        ResponseSupport::Unconfirmed
    } else {
        decide(
            n,
            threshold,
            rs.after_response(change_block, index, new_support(change_block, rs, sup, response)),
        )
    }
}

/// The response meta data after the key server of index `index` responds
/// with `response`.
pub open spec fn responses_after(
    change_block: u64,
    index: u8,
    rs: Responses,
    sup: ResponsesSupport,
    response: Seq<u8>,
) -> Responses {
    if rs.has_responded(change_block, index) {
        rs.rebase(change_block)
    } else {
        rs.after_response(change_block, index, new_support(change_block, rs, sup, response))
    }
}

/// The support of `x` after the key server of index `index` responds with
/// `response`.
pub open spec fn support_after(
    change_block: u64,
    index: u8,
    rs: Responses,
    sup: ResponsesSupport,
    response: Seq<u8>,
    x: Seq<u8>,
) -> nat {
    let base = if rs.is_stale(change_block) {
        0
    } else {
        sup.count_of(x)
    };
    if !rs.has_responded(change_block, index) && x == response {
        base + 1
    } else {
        base
    }
}

impl ResponsesSupport {
    /// No response has more supporters than `bound`.
    pub open spec fn bounded_by(&self, bound: nat) -> bool {
        forall|x: Seq<u8>| #[trigger] self.count_of(x) <= bound
    }
}

/// Operations shared by all service kinds.
pub struct SecretStoreService;

impl SecretStoreService {
    /// Fresh response meta data, stamped with the current set-change block.
    pub fn new_responses(key_servers_change_block: u64) -> (r: Responses)
        ensures
            r.wf(),
            r.key_servers_change_block == key_servers_change_block,
            r.responded_key_servers_mask@ == Set::<int>::empty(),
            r.responded_key_servers_count == 0,
            r.max_response_support == 0,
    {
        let mask = KeyServersMask::empty();
        proof {
            mask.lemma_finite();
        }
        Responses {
            key_servers_change_block,
            responded_key_servers_mask: mask,
            responded_key_servers_count: 0,
            max_response_support: 0,
        }
    }

    /// Counts the response of the key server of index `key_server_index` to a
    /// request, in a set of `key_servers_count` key servers where
    /// `threshold + 1` of them must agree. A tally that began under an older
    /// set-change block starts over first; a second response of the same key
    /// server is ignored.
    pub fn insert_response(
        key_servers_count: u8,
        key_servers_change_block: u64,
        key_server_index: u8,
        threshold: u8,
        responses: &mut Responses,
        support: &mut ResponsesSupport,
        response: &Vec<u8>,
    ) -> (r: ResponseSupport)
        requires
            key_servers_count >= 1,
            old(responses).wf(),
            old(support).wf(),
            old(support).bounded_by(old(responses).responded_key_servers_count as nat),
            !old(responses).is_stale(key_servers_change_block)
                ==> old(responses).responded_key_servers_count <= key_servers_count,
            !old(responses).is_stale(key_servers_change_block)
                && !old(responses).responded_key_servers_mask@.contains(key_server_index as int)
                ==> old(responses).responded_key_servers_count < key_servers_count,
        ensures
            final(responses).wf(),
            final(support).wf(),
            final(support).bounded_by(final(responses).responded_key_servers_count as nat),
            final(responses).responded_key_servers_count <= key_servers_count,
            final(responses).key_servers_change_block == key_servers_change_block,
            r == outcome(
                key_servers_count as nat,
                key_servers_change_block,
                key_server_index,
                threshold as nat,
                *old(responses),
                *old(support),
                response@,
            ),
            *final(responses) == responses_after(
                key_servers_change_block,
                key_server_index,
                *old(responses),
                *old(support),
                response@,
            ),
            forall|x: Seq<u8>|
                #[trigger] final(support).count_of(x) == support_after(
                    key_servers_change_block,
                    key_server_index,
                    *old(responses),
                    *old(support),
                    response@,
                    x,
                ),
            old(responses).rebase(key_servers_change_block).responded_key_servers_mask@ == if old(
                responses,
            ).is_stale(key_servers_change_block) {
                Set::<int>::empty()
            } else {
                old(responses).responded_key_servers_mask@
            },
            final(responses).responded_key_servers_mask@ == old(responses).rebase(
                key_servers_change_block,
            ).responded_key_servers_mask@.insert(key_server_index as int),
    {
        let ghost old_responses = *responses;
        proof {
            KeyServersMask::lemma_spec_empty();
        }
        // check that the set is still the same (and all previous responses valid)
        if responses.responded_key_servers_count == 0 {
            responses.key_servers_change_block = key_servers_change_block;
        } else if responses.key_servers_change_block != key_servers_change_block {
            responses.key_servers_change_block = key_servers_change_block;
            responses.responded_key_servers_mask = KeyServersMask::empty();
            responses.responded_key_servers_count = 0;
            responses.max_response_support = 0;
            support.reset();
        }
        assert(*responses == old_responses.rebase(key_servers_change_block));

        // a key server that has already responded is not counted twice
        if responses.responded_key_servers_mask.is_set(key_server_index) {
            assert(responses.responded_key_servers_mask@.insert(key_server_index as int)
                =~= responses.responded_key_servers_mask@);
            return ResponseSupport::Unconfirmed;
        }
        proof {
            responses.responded_key_servers_mask.lemma_finite();
        }

        // count the response
        let response_support = support.support(response);
        let mask = responses.responded_key_servers_mask.with_index(key_server_index);
        proof {
            mask.lemma_finite();
        }
        responses.responded_key_servers_mask = mask;
        responses.responded_key_servers_count = responses.responded_key_servers_count + 1;
        if response_support >= responses.max_response_support {
            responses.max_response_support = response_support;
        }

        // check whether the largest support is enough
        if responses.max_response_support as u16 >= threshold as u16 + 1 {
            return ResponseSupport::Confirmed;
        }
        // check whether the largest support can still become enough
        let key_servers_left: u8 = key_servers_count - responses.responded_key_servers_count;
        if (responses.max_response_support as u16) + (key_servers_left as u16) < threshold as u16
            + 1 {
            return ResponseSupport::Impossible;
        }
        ResponseSupport::Unconfirmed
    }
}

/// A key server that has responded already changes nothing by responding
/// again: each request holds at most one response of each key server.
pub proof fn lemma_one_response_per_key_server(
    change_block: u64,
    index: u8,
    rs: Responses,
    sup: ResponsesSupport,
    response: Seq<u8>,
    x: Seq<u8>,
)
    requires
        rs.has_responded(change_block, index),
    ensures
        responses_after(change_block, index, rs, sup, response) == rs.rebase(change_block),
        support_after(change_block, index, rs, sup, response, x) == (if rs.is_stale(change_block) {
            0
        } else {
            sup.count_of(x)
        }),
        outcome(rs.responded_key_servers_count as nat, change_block, index, 0, rs, sup, response)
            == ResponseSupport::Unconfirmed,
{
}

/// Submitting the same response of the same key server twice gives the
/// same tally, and the same state, as submitting it once; the second
/// submission is left unconfirmed.
pub proof fn lemma_duplicate_response(
    n: nat,
    change_block: u64,
    index: u8,
    threshold: nat,
    rs: Responses,
    sup: ResponsesSupport,
    sup1: ResponsesSupport,
    response: Seq<u8>,
)
    requires
        rs.wf(),
        forall|x: Seq<u8>|
            #[trigger] sup1.count_of(x) == support_after(change_block, index, rs, sup, response, x),
    ensures
        ({
            let rs1 = responses_after(change_block, index, rs, sup, response);
            &&& responses_after(change_block, index, rs1, sup1, response) == rs1
            &&& forall|x: Seq<u8>|
                #[trigger] support_after(change_block, index, rs1, sup1, response, x)
                    == sup1.count_of(x)
            &&& outcome(n, change_block, index, threshold, rs1, sup1, response)
                == ResponseSupport::Unconfirmed
        }),
{
    let rs1 = responses_after(change_block, index, rs, sup, response);
    let b = rs.rebase(change_block);
    if rs.is_stale(change_block) {
        KeyServersMask::lemma_spec_empty();
    }
    b.responded_key_servers_mask.lemma_spec_with(index);
    b.responded_key_servers_mask.lemma_finite();
    assert(rs1.key_servers_change_block == change_block);
    assert(rs1.responded_key_servers_mask@.contains(index as int));
    assert(!rs1.is_stale(change_block));
    assert(rs1.rebase(change_block) == rs1);
    assert(rs1.has_responded(change_block, index));
}

/// A tally that began under an older set-change block is discarded on its
/// next response: only that response counts.
pub proof fn lemma_stale_tally_resets(
    change_block: u64,
    index: u8,
    rs: Responses,
    sup: ResponsesSupport,
    response: Seq<u8>,
    x: Seq<u8>,
)
    requires
        rs.responded_key_servers_count > 0,
        rs.key_servers_change_block != change_block,
    ensures
        responses_after(change_block, index, rs, sup, response).responded_key_servers_mask@ == set![
            index as int,
        ],
        responses_after(change_block, index, rs, sup, response).responded_key_servers_count == 1,
        responses_after(change_block, index, rs, sup, response).key_servers_change_block
            == change_block,
        support_after(change_block, index, rs, sup, response, x) == (if x == response {
            1nat
        } else {
            0
        }),
{
    KeyServersMask::lemma_spec_empty();
    KeyServersMask::spec_empty().lemma_spec_with(index);
    assert(Set::<int>::empty().insert(index as int) =~= set![index as int]);
}

/// With threshold 0 a single voter suffices: the first response confirms.
pub proof fn lemma_threshold_zero_confirms_first(
    n: nat,
    change_block: u64,
    index: u8,
    rs: Responses,
    sup: ResponsesSupport,
    response: Seq<u8>,
)
    requires
        rs.wf(),
        rs.responded_key_servers_count == 0,
        sup.bounded_by(0),
    ensures
        outcome(n, change_block, index, 0, rs, sup, response) == ResponseSupport::Confirmed,
{
    rs.responded_key_servers_mask.lemma_finite();
    rs.responded_key_servers_mask@.lemma_len0_is_empty();
    assert(sup.count_of(response) == 0);
    assert(!rs.has_responded(change_block, index));
}

/// With threshold `n - 1` all `n` voters are required: a response is
/// confirmed exactly when all `n` key servers gave it, and once all `n` have
/// responded without agreeing the request is impossible.
pub proof fn lemma_all_voters_required(n: nat, after: Responses)
    requires
        n >= 1,
        after.max_response_support <= after.responded_key_servers_count,
        after.responded_key_servers_count <= n,
    ensures
        decide(n, (n - 1) as nat, after) == ResponseSupport::Confirmed
            <==> after.max_response_support == n,
        after.responded_key_servers_count == n && after.max_response_support < n ==> decide(
            n,
            (n - 1) as nat,
            after,
        ) == ResponseSupport::Impossible,
{
}

} // verus!
