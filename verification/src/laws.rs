use vstd::prelude::*;

use crate::registry::{first_index, without_first, RegistryCall, RegistryState, TokenView};

verus! {

/// A registry in which nothing has been minted is consistent.
pub proof fn lemma_empty_consistent()
    ensures
        RegistryState::empty().consistent(),
{
    let s = RegistryState::empty();
    assert forall|o: Seq<u8>, id: u64| #[trigger]
        s.tokens_of(o).contains(id) <==> (s.tokens.contains_key(id) && s.tokens[id].owner == o) by {
        assert(s.tokens_of(o) =~= Seq::<u64>::empty());
    }
}

/// Minting keeps a registry consistent.
pub proof fn lemma_mint_keeps_consistent(
    s: RegistryState,
    owner: Seq<u8>,
    credential_id: u64,
    metadata_uri: Seq<u8>,
)
    requires
        s.consistent(),
        !s.has_link(owner, credential_id),
        s.token_count < u64::MAX,
    ensures
        s.after_mint(owner, credential_id, metadata_uri).consistent(),
{
    let t = s.after_mint(owner, credential_id, metadata_uri);
    let id = t.token_count;
    assert forall|o: Seq<u8>| #[trigger] RegistryState::increasing(t.tokens_of(o)) by {
        if o == owner {
            let l = s.tokens_of(owner);
            assert(RegistryState::increasing(s.tokens_of(owner)));
            assert forall|i: int| 0 <= i < l.len() implies l[i] < id by {
                assert(l.contains(l[i]));
                assert(s.tokens_of(owner).contains(l[i]));
            }
        } else {
            assert(t.tokens_of(o) == s.tokens_of(o));
        }
    }
    assert forall|o: Seq<u8>, x: u64| #[trigger]
        t.tokens_of(o).contains(x) <==> (t.tokens.contains_key(x) && t.tokens[x].owner == o) by {
        if o == owner {
            let l = s.tokens_of(owner);
            if t.tokens_of(o).contains(x) && x != id {
                let i = choose|i: int| 0 <= i < l.len() + 1 && l.push(id)[i] == x;
                assert(l[i] == x);
                assert(l.contains(x));
                assert(s.tokens_of(owner).contains(x));
            }
            if x == id {
                assert(l.push(id)[l.len() as int] == id);
            } else if t.tokens.contains_key(x) && t.tokens[x].owner == o {
                assert(s.tokens_of(o).contains(x));
                let i = choose|i: int| 0 <= i < l.len() && l[i] == x;
                assert(l.push(id)[i] == x);
            }
        } else {
            assert(t.tokens_of(o) == s.tokens_of(o));
            if x == id {
                if s.tokens_of(o).contains(x) {
                    assert(s.tokens.contains_key(x));
                }
            } else {
                assert(s.tokens_of(o).contains(x) <==> (s.tokens.contains_key(x)
                    && s.tokens[x].owner == o));
            }
        }
    }
    assert forall|x: u64| #[trigger] t.tokens.contains_key(x) implies t.has_link(
        t.tokens[x].owner,
        t.tokens[x].credential_id,
    ) && t.links[(t.tokens[x].owner, t.tokens[x].credential_id)] == x by {
        if x != id {
            assert(s.tokens.contains_key(x));
            assert(s.has_link(s.tokens[x].owner, s.tokens[x].credential_id));
        }
    }
}

/// In a strictly increasing list that holds `x`, taking out the first `x`
/// keeps the list strictly increasing and leaves exactly the other elements.
proof fn lemma_without_first_increasing(l: Seq<u64>, x: u64)
    requires
        RegistryState::increasing(l),
        l.contains(x),
    ensures
        RegistryState::increasing(without_first(l, x)),
        forall|y: u64| #[trigger]
            without_first(l, x).contains(y) <==> (l.contains(y) && y != x),
{
    let p = first_index(l, x);
    let i0 = choose|i: int| 0 <= i < l.len() && l[i] == x;
    assert(0 <= i0 < l.len() && l[i0] == x);
    assert(forall|j: int| 0 <= j < i0 ==> l[j] != x);
    assert(0 <= p < l.len() && l[p] == x);
    let r = without_first(l, x);
    assert(r == l.remove(p));
    assert forall|y: u64| #[trigger] r.contains(y) <==> (l.contains(y) && y != x) by {
        if r.contains(y) {
            let k = choose|k: int| 0 <= k < r.len() && r[k] == y;
            if k < p {
                assert(l[k] == y);
                assert(l[k] < l[p]);
            } else {
                assert(l[k + 1] == y);
                assert(l[p] < l[k + 1]);
            }
        }
        if l.contains(y) && y != x {
            let k = choose|k: int| 0 <= k < l.len() && l[k] == y;
            if k < p {
                assert(r[k] == y);
            } else {
                assert(k != p);
                assert(r[k - 1] == y);
            }
        }
    }
}

/// Burning a token that its owner holds keeps a registry consistent.
pub proof fn lemma_burn_keeps_consistent(s: RegistryState, owner: Seq<u8>, token_id: u64)
    requires
        s.consistent(),
        s.tokens.contains_key(token_id),
        s.tokens[token_id].owner == owner,
    ensures
        s.after_burn(owner, token_id).consistent(),
{
    let t = s.after_burn(owner, token_id);
    let l = s.tokens_of(owner);
    assert(l.contains(token_id));
    assert(RegistryState::increasing(l));
    lemma_without_first_increasing(l, token_id);
    assert(t.tokens_of(owner) == without_first(l, token_id));
    assert forall|o: Seq<u8>| #[trigger] RegistryState::increasing(t.tokens_of(o)) by {
        if o != owner {
            assert(t.tokens_of(o) == s.tokens_of(o));
        }
    }
    assert forall|o: Seq<u8>, x: u64| #[trigger]
        t.tokens_of(o).contains(x) <==> (t.tokens.contains_key(x) && t.tokens[x].owner == o) by {
        if o == owner {
            assert(without_first(l, token_id).contains(x) <==> (l.contains(x) && x != token_id));
            assert(s.tokens_of(o).contains(x) <==> (s.tokens.contains_key(x) && s.tokens[x].owner
                == o));
        } else {
            assert(t.tokens_of(o) == s.tokens_of(o));
            assert(s.tokens_of(o).contains(x) <==> (s.tokens.contains_key(x) && s.tokens[x].owner
                == o));
        }
    }
    assert forall|x: u64| #[trigger] t.tokens.contains_key(x) implies t.has_link(
        t.tokens[x].owner,
        t.tokens[x].credential_id,
    ) && t.links[(t.tokens[x].owner, t.tokens[x].credential_id)] == x by {
        assert(s.tokens.contains_key(x));
    }
}

/// What a mint writes is what the reads give back: the new token, with the
/// next identifier, is stored with the given owner, credential and metadata;
/// it is listed last among the owner's tokens; the owner's credential is
/// linked to it; and every other token stays as it was.
pub proof fn lemma_mint_then_read(
    s: RegistryState,
    owner: Seq<u8>,
    credential_id: u64,
    metadata_uri: Seq<u8>,
)
    requires
        s.token_count < u64::MAX,
    ensures
        ({
            let t = s.after_mint(owner, credential_id, metadata_uri);
            let id = (s.token_count + 1) as u64;
            &&& t.token_count == id
            &&& t.tokens.contains_key(id)
            &&& t.tokens[id] == (TokenView { id, owner, credential_id, metadata_uri })
            &&& t.owners.contains_key(id)
            &&& t.owners[id] == owner
            &&& t.tokens_of(owner) == s.tokens_of(owner).push(id)
            &&& t.has_link(owner, credential_id)
            &&& t.links[(owner, credential_id)] == id
            &&& forall|x: u64|
                x != id ==> #[trigger] t.tokens.contains_key(x) == s.tokens.contains_key(x)
                    && t.tokens[x] == s.tokens[x]
            &&& forall|o: Seq<u8>| o != owner ==> #[trigger] t.tokens_of(o) == s.tokens_of(o)
            &&& forall|x: u64|
                x != id ==> #[trigger] t.owners.contains_key(x) == s.owners.contains_key(x)
                    && t.owners[x] == s.owners[x]
            &&& forall|k: (Seq<u8>, u64)|
                k != (owner, credential_id) ==> #[trigger] t.links.contains_key(k)
                    == s.links.contains_key(k) && t.links[k] == s.links[k]
        }),
{
}

/// In a consistent registry, an (owner, credential) pair is linked exactly
/// while a live token of that owner for that credential exists, the link
/// names that token, and no two live tokens share the pair.
pub proof fn lemma_link_iff_live_token(s: RegistryState, owner: Seq<u8>, credential_id: u64)
    requires
        s.consistent(),
    ensures
        s.has_link(owner, credential_id) <==> exists|x: u64| #[trigger]
            s.tokens.contains_key(x) && s.tokens[x].owner == owner && s.tokens[x].credential_id
                == credential_id,
        s.has_link(owner, credential_id) ==> ({
            let x = s.links[(owner, credential_id)];
            &&& s.tokens.contains_key(x)
            &&& s.tokens[x].owner == owner
            &&& s.tokens[x].credential_id == credential_id
        }),
        forall|x: u64, y: u64|
            #![trigger s.tokens[x], s.tokens[y]]
            s.tokens.contains_key(x) && s.tokens.contains_key(y) && s.tokens[x].owner == owner
                && s.tokens[y].owner == owner && s.tokens[x].credential_id == credential_id
                && s.tokens[y].credential_id == credential_id ==> x == y,
{
    assert forall|x: u64, y: u64|
        #![trigger s.tokens[x], s.tokens[y]]
        s.tokens.contains_key(x) && s.tokens.contains_key(y) && s.tokens[x].owner == owner
            && s.tokens[y].owner == owner && s.tokens[x].credential_id == credential_id
            && s.tokens[y].credential_id == credential_id implies x == y by {
        assert(s.links[(s.tokens[x].owner, s.tokens[x].credential_id)] == x);
        assert(s.links[(s.tokens[y].owner, s.tokens[y].credential_id)] == y);
    }
    if s.has_link(owner, credential_id) {
        let x = s.links[(owner, credential_id)];
        assert(s.tokens.contains_key(x));
    }
}

/// A credential yields at most one live token per owner: the pair stays
/// linked while its token lives, through mints of any pair and burns of
/// other tokens, so every mint for it is refused; burning its token drops
/// the link.
pub proof fn lemma_link_while_token_lives(
    s: RegistryState,
    owner: Seq<u8>,
    credential_id: u64,
    other_owner: Seq<u8>,
    other_credential: u64,
    metadata_uri: Seq<u8>,
    other_token: u64,
)
    requires
        s.consistent(),
        s.has_link(owner, credential_id),
        s.tokens.contains_key(other_token),
        s.tokens[other_token].owner == other_owner,
        other_token != s.links[(owner, credential_id)],
    ensures
        s.after_mint(other_owner, other_credential, metadata_uri).has_link(owner, credential_id),
        s.after_burn(other_owner, other_token).has_link(owner, credential_id),
        s.after_burn(other_owner, other_token).links[(owner, credential_id)] == s.links[(
            owner,
            credential_id,
        )],
        !s.after_burn(owner, s.links[(owner, credential_id)]).has_link(owner, credential_id),
{
    let x = s.links[(owner, credential_id)];
    assert(s.tokens.contains_key(x));
    assert(s.has_link(other_owner, s.tokens[other_token].credential_id));
    assert(s.links[(other_owner, s.tokens[other_token].credential_id)] == other_token);
}

/// Minting, burning that token, and minting again for the same owner and
/// credential: the second mint finds no link, so it succeeds, with the next
/// identifier.
pub proof fn lemma_remint_after_burn(
    s: RegistryState,
    owner: Seq<u8>,
    credential_id: u64,
    metadata_uri: Seq<u8>,
    metadata_uri2: Seq<u8>,
)
    requires
        s.consistent(),
        !s.has_link(owner, credential_id),
        s.token_count + 2 <= u64::MAX,
    ensures
        ({
            let id = (s.token_count + 1) as u64;
            let t = s.after_mint(owner, credential_id, metadata_uri);
            let u = t.after_burn(owner, id);
            let w = u.after_mint(owner, credential_id, metadata_uri2);
            &&& !u.has_link(owner, credential_id)
            &&& u.token_count < u64::MAX
            &&& u.consistent()
            &&& w.token_count == id + 1
            &&& w.tokens[(id + 1) as u64].owner == owner
            &&& w.tokens[(id + 1) as u64].credential_id == credential_id
            &&& !w.tokens.contains_key(id)
        }),
{
    let id = (s.token_count + 1) as u64;
    let t = s.after_mint(owner, credential_id, metadata_uri);
    lemma_mint_keeps_consistent(s, owner, credential_id, metadata_uri);
    lemma_burn_keeps_consistent(t, owner, id);
}

/// Minting twice for the same owner and credential: the second mint finds
/// the pair linked, and is refused.
pub proof fn lemma_second_mint_refused(
    s: RegistryState,
    owner: Seq<u8>,
    credential_id: u64,
    metadata_uri: Seq<u8>,
)
    ensures
        s.after_mint(owner, credential_id, metadata_uri).has_link(owner, credential_id),
{
}

/// Identifiers are handed out one after another: two successive mints get
/// the next two numbers.
pub proof fn lemma_mint_ids_consecutive(
    s: RegistryState,
    owner: Seq<u8>,
    credential_id: u64,
    metadata_uri: Seq<u8>,
    owner2: Seq<u8>,
    credential_id2: u64,
    metadata_uri2: Seq<u8>,
)
    requires
        s.token_count + 2 <= u64::MAX,
    ensures
        ({
            let t = s.after_mint(owner, credential_id, metadata_uri);
            let u = t.after_mint(owner2, credential_id2, metadata_uri2);
            &&& t.token_count == s.token_count + 1
            &&& u.token_count == s.token_count + 2
            &&& u.tokens[(s.token_count + 1) as u64].owner == owner
            &&& u.tokens[(s.token_count + 2) as u64].owner == owner2
        }),
{
}

/// After a burn the token is gone: it no longer exists, and in a consistent
/// registry it is no longer listed among its owner's tokens, while the
/// owner's other tokens stay listed in their order.
pub proof fn lemma_burn_then_read(s: RegistryState, owner: Seq<u8>, token_id: u64)
    requires
        s.consistent(),
        s.tokens.contains_key(token_id),
        s.tokens[token_id].owner == owner,
    ensures
        ({
            let t = s.after_burn(owner, token_id);
            &&& !t.tokens.contains_key(token_id)
            &&& !t.owners.contains_key(token_id)
            &&& !t.has_link(owner, s.tokens[token_id].credential_id)
            &&& !t.tokens_of(owner).contains(token_id)
            &&& forall|x: u64| #[trigger]
                t.tokens_of(owner).contains(x) <==> (s.tokens_of(owner).contains(x) && x
                    != token_id)
            &&& RegistryState::increasing(t.tokens_of(owner))
            &&& t.token_count == s.token_count
        }),
{
    let l = s.tokens_of(owner);
    assert(l.contains(token_id));
    assert(RegistryState::increasing(l));
    lemma_without_first_increasing(l, token_id);
}

/// In a consistent registry, an owner's list and the tokens' owners agree:
/// a token is listed for exactly the owner it names, and no list repeats a
/// token.
pub proof fn lemma_listing_matches_ownership(s: RegistryState, owner: Seq<u8>, token_id: u64)
    requires
        s.consistent(),
    ensures
        s.tokens_of(owner).contains(token_id) <==> (s.tokens.contains_key(token_id)
            && s.tokens[token_id].owner == owner),
        s.tokens_of(owner).no_duplicates(),
{
    let l = s.tokens_of(owner);
    assert(RegistryState::increasing(l));
    assert forall|i: int, j: int| 0 <= i < l.len() && 0 <= j < l.len() && i != j implies l[i]
        != l[j] by {
        if i < j {
            assert(l[i] < l[j]);
        } else {
            assert(l[j] < l[i]);
        }
    }
}

/// What one call keeps, in a consistent registry: the registry stays
/// consistent; the count of minted tokens never goes down; a token that
/// still exists is unchanged, and so is its owner entry; and a token that is
/// new has an identifier above every identifier handed out before.
pub proof fn lemma_step_keeps(s: RegistryState, call: RegistryCall)
    requires
        s.consistent(),
    ensures
        ({
            let t = s.step(call);
            &&& t.consistent()
            &&& t.token_count >= s.token_count
            &&& forall|x: u64| #[trigger]
                t.tokens.contains_key(x) && x <= s.token_count ==> s.tokens.contains_key(x)
                    && t.tokens[x] == s.tokens[x] && t.owners[x] == s.owners[x]
            &&& forall|x: u64| #[trigger]
                t.tokens.contains_key(x) && !s.tokens.contains_key(x) ==> x > s.token_count
        }),
{
    match call {
        RegistryCall::Mint { owner, credential_id, metadata_uri } => {
            if !s.has_link(owner, credential_id) && s.token_count < u64::MAX {
                lemma_mint_keeps_consistent(s, owner, credential_id, metadata_uri);
            }
        },
        RegistryCall::Burn { owner, token_id } => {
            if s.burn_allowed(owner, token_id) {
                lemma_burn_keeps_consistent(s, owner, token_id);
            }
        },
        RegistryCall::Transfer => {},
    }
}

/// What any sequence of calls keeps, in a consistent registry: the registry
/// stays consistent; the count of minted tokens never goes down; a token
/// that still exists is unchanged, owner included (a burnt identifier never
/// comes back); and every token minted on the way has an identifier above
/// every identifier handed out before.
pub proof fn lemma_run_keeps(s: RegistryState, calls: Seq<RegistryCall>)
    requires
        s.consistent(),
    ensures
        ({
            let t = s.run(calls);
            &&& t.consistent()
            &&& t.token_count >= s.token_count
            &&& forall|x: u64| #[trigger]
                t.tokens.contains_key(x) && x <= s.token_count ==> s.tokens.contains_key(x)
                    && t.tokens[x] == s.tokens[x] && t.owners[x] == s.owners[x]
            &&& forall|x: u64| #[trigger]
                t.tokens.contains_key(x) && !s.tokens.contains_key(x) ==> x > s.token_count
        }),
    decreases calls.len(),
{
    if calls.len() > 0 {
        let m = s.step(calls[0]);
        lemma_step_keeps(s, calls[0]);
        lemma_run_keeps(m, calls.drop_first());
        let t = s.run(calls);
        assert(t == m.run(calls.drop_first()));
        assert forall|x: u64| #[trigger]
            t.tokens.contains_key(x) && x <= s.token_count implies s.tokens.contains_key(x)
                && t.tokens[x] == s.tokens[x] && t.owners[x] == s.owners[x] by {
            assert(m.tokens.contains_key(x));
        }
        assert forall|x: u64| #[trigger]
            t.tokens.contains_key(x) && !s.tokens.contains_key(x) implies x > s.token_count by {
            if m.tokens.contains_key(x) {
            } else {
                assert(x > m.token_count);
            }
        }
    }
}

/// Identifiers are never handed out twice: after a mint that returned
/// `s.token_count + 1`, whatever calls follow (burns of that token
/// included), the next successful mint returns a larger identifier.
pub proof fn lemma_ids_never_reused(
    s: RegistryState,
    owner: Seq<u8>,
    credential_id: u64,
    metadata_uri: Seq<u8>,
    calls: Seq<RegistryCall>,
)
    requires
        s.consistent(),
        !s.has_link(owner, credential_id),
        s.token_count < u64::MAX,
    ensures
        ({
            let first = s.token_count + 1;
            let v = s.after_mint(owner, credential_id, metadata_uri).run(calls);
            &&& v.token_count >= first
            &&& v.token_count + 1 > first
            &&& forall|x: u64| #[trigger] v.tokens.contains_key(x) ==> x <= v.token_count
        }),
{
    let t = s.after_mint(owner, credential_id, metadata_uri);
    lemma_mint_keeps_consistent(s, owner, credential_id, metadata_uri);
    lemma_run_keeps(t, calls);
}

/// A minted token reads back unchanged, with the same owner, for as long as
/// it exists, whatever calls follow: transfers never move it, and nothing
/// but its burn takes it away. While it exists it is listed for its owner
/// and linked from its credential.
pub proof fn lemma_token_reads_back(
    s: RegistryState,
    owner: Seq<u8>,
    credential_id: u64,
    metadata_uri: Seq<u8>,
    calls: Seq<RegistryCall>,
)
    requires
        s.consistent(),
        !s.has_link(owner, credential_id),
        s.token_count < u64::MAX,
    ensures
        ({
            let id = (s.token_count + 1) as u64;
            let v = s.after_mint(owner, credential_id, metadata_uri).run(calls);
            v.tokens.contains_key(id) ==> {
                &&& v.tokens[id] == (TokenView { id, owner, credential_id, metadata_uri })
                &&& v.owners[id] == owner
                &&& v.tokens_of(owner).contains(id)
                &&& v.has_link(owner, credential_id)
                &&& v.links[(owner, credential_id)] == id
            }
        }),
{
    let id = (s.token_count + 1) as u64;
    let t = s.after_mint(owner, credential_id, metadata_uri);
    lemma_mint_keeps_consistent(s, owner, credential_id, metadata_uri);
    lemma_run_keeps(t, calls);
    let v = t.run(calls);
    if v.tokens.contains_key(id) {
        assert(t.tokens.contains_key(id));
        assert(v.tokens_of(owner).contains(id) <==> (v.tokens.contains_key(id)
            && v.tokens[id].owner == owner));
    }
}

/// Every state that calls reach from an empty registry is consistent, so in
/// it a mint for an (owner, credential) pair is refused exactly while a live
/// token of that owner for that credential exists.
pub proof fn lemma_reachable_refusal(
    calls: Seq<RegistryCall>,
    owner: Seq<u8>,
    credential_id: u64,
)
    ensures
        RegistryState::empty().run(calls).consistent(),
        RegistryState::empty().run(calls).has_link(owner, credential_id) <==> exists|x: u64|
            #[trigger] RegistryState::empty().run(calls).tokens.contains_key(x)
                && RegistryState::empty().run(calls).tokens[x].owner == owner
                && RegistryState::empty().run(calls).tokens[x].credential_id == credential_id,
{
    lemma_empty_consistent();
    lemma_run_keeps(RegistryState::empty(), calls);
    lemma_link_iff_live_token(RegistryState::empty().run(calls), owner, credential_id);
}

/// Searching `l` from position `k`, where `x` does not occur before `k` but
/// does occur at or after it, finds the first occurrence of `x`.
proof fn lemma_first_index_from(l: Seq<u64>, x: u64, k: int)
    requires
        0 <= k <= l.len(),
        forall|j: int| 0 <= j < k ==> l[j] != x,
        exists|i: int| k <= i < l.len() && l[i] == x,
    ensures
        0 <= first_index(l, x) < l.len(),
        l[first_index(l, x)] == x,
        forall|j: int| 0 <= j < first_index(l, x) ==> l[j] != x,
    decreases l.len() - k,
{
    if l[k] == x {
        assert(0 <= k < l.len() && l[k] == x && forall|j: int| 0 <= j < k ==> l[j] != x);
    } else {
        let i = choose|i: int| k <= i < l.len() && l[i] == x;
        assert(k + 1 <= i);
        lemma_first_index_from(l, x, k + 1);
    }
}

/// What a burn does, in any registry, consistent or not, where `owner` holds
/// the token `token_id`:
/// - the token and its owner entry are gone, and the link of the owner's
///   credential to it; every other token, owner entry and link stays, and so
///   does the count of minted tokens;
/// - the owner's list loses exactly the first occurrence of `token_id`, the
///   other entries keeping their order; a list without it stays as it was;
/// - so every other identifier is listed for the owner afterwards exactly
///   when it was before, and a list that held `token_id` once no longer holds
///   it;
/// - every other owner's list stays as it was.
pub proof fn lemma_burn_effect(s: RegistryState, owner: Seq<u8>, token_id: u64)
    requires
        s.burn_allowed(owner, token_id),
    ensures
        ({
            let u = s.after_burn(owner, token_id);
            let old_list = s.tokens_of(owner);
            let new_list = u.tokens_of(owner);
            &&& !u.tokens.contains_key(token_id)
            &&& !u.owners.contains_key(token_id)
            &&& !u.has_link(owner, s.tokens[token_id].credential_id)
            &&& u.token_count == s.token_count
            &&& forall|x: u64|
                x != token_id ==> #[trigger] u.tokens.contains_key(x) == s.tokens.contains_key(x)
                    && u.tokens[x] == s.tokens[x]
            &&& forall|x: u64|
                x != token_id ==> #[trigger] u.owners.contains_key(x) == s.owners.contains_key(x)
                    && u.owners[x] == s.owners[x]
            &&& forall|k: (Seq<u8>, u64)|
                k != (owner, s.tokens[token_id].credential_id) ==> #[trigger] u.links.contains_key(k)
                    == s.links.contains_key(k) && u.links[k] == s.links[k]
            &&& forall|o: Seq<u8>| o != owner ==> #[trigger] u.tokens_of(o) == s.tokens_of(o)
            &&& old_list.contains(token_id) ==> exists|p: int|
                0 <= p < old_list.len() && old_list[p] == token_id && (forall|j: int|
                    0 <= j < p ==> old_list[j] != token_id) && new_list == old_list.take(p)
                    + old_list.skip(p + 1)
            &&& !old_list.contains(token_id) ==> new_list == old_list
            &&& old_list.contains(token_id) ==> new_list.len() + 1 == old_list.len()
            &&& forall|x: u64|
                x != token_id ==> (#[trigger] new_list.contains(x) <==> old_list.contains(x))
            &&& old_list.no_duplicates() ==> !new_list.contains(token_id)
                && new_list.no_duplicates()
        }),
{
    let u = s.after_burn(owner, token_id);
    let l = s.tokens_of(owner);
    let n = u.tokens_of(owner);
    assert(n == without_first(l, token_id));
    assert forall|k: (Seq<u8>, u64)|
        k != (owner, s.tokens[token_id].credential_id) implies #[trigger] u.links.contains_key(k)
            == s.links.contains_key(k) && u.links[k] == s.links[k] by {}
    if l.contains(token_id) {
        let i0 = choose|i: int| 0 <= i < l.len() && l[i] == token_id;
        lemma_first_index_from(l, token_id, 0);
        let p = first_index(l, token_id);
        assert(n == l.remove(p));
        assert(n =~= l.take(p) + l.skip(p + 1));
        assert forall|x: u64| x != token_id implies (#[trigger] n.contains(x) <==> l.contains(
            x,
        )) by {
            if n.contains(x) {
                let k = choose|k: int| 0 <= k < n.len() && n[k] == x;
                if k < p {
                    assert(l[k] == x);
                } else {
                    assert(l[k + 1] == x);
                }
            }
            if l.contains(x) {
                let k = choose|k: int| 0 <= k < l.len() && l[k] == x;
                assert(k != p);
                if k < p {
                    assert(n[k] == x);
                } else {
                    assert(n[k - 1] == x);
                }
            }
        }
        if l.no_duplicates() {
            if n.contains(token_id) {
                let k = choose|k: int| 0 <= k < n.len() && n[k] == token_id;
                if k < p {
                    assert(l[k] == token_id);
                } else {
                    assert(l[k + 1] == token_id);
                }
            }
            assert forall|a: int, b: int|
                0 <= a < n.len() && 0 <= b < n.len() && a != b implies n[a] != n[b] by {
                let a1 = if a < p { a } else { a + 1 };
                let b1 = if b < p { b } else { b + 1 };
                assert(n[a] == l[a1] && n[b] == l[b1]);
            }
        }
    }
}

} // verus!
